use glowy::context::AnalysisContext;
use glowy::errors::AnalysisErrorKind;
use glowy::functions::FunctionRef;
use glowy::labels::backtraces::{LabelBacktrace, LabelBacktraceKind};
use glowy::labels::Label;
use glowy::locations::{Location, Pinned, Span};
use glowy::ordered::{OrderedMap, OrderedSet};
use glowy::policy::blanket_directives::{BlanketDirective, BlanketDirectiveKind};
use glowy::policy::targets::SimpleConstValue;
use glowy::symbols::table::SymbolTable;
use glowy::symbols::Symbol;
use glowy::taint::exprs::component::{
    find_key, FieldInfo, Member, SliceBound,
};
use glowy::taint::exprs::literals::{
    choose_literal_form, find_field_names, gives_fields_by_name, try_resolve_named_type_underlying,
    visit_integer_keyed_composite_literal, visit_map_composite_literal, visit_nested_elements,
    visit_struct_composite_literal, visit_unnamed_struct_literal, ElementKey, FieldDecl, ListKey,
    MapElement, NamedUnderlying,
};
use glowy::taint::exprs::visits::{visit_evaluated, ExprNode, ExprResult};
use glowy::taint::exprs::{
    derive_short_circuit_branch, expect_single, keep_const_if_untainted, pair_with_const,
};
use glowy::taint::funcs::FunctionSummary;
use glowy::values::{PartKey, TypeInfo, TypeKind, Value, ValueForm};

fn loc(start: usize) -> Location {
    Location { start, end: start + 1 }
}

fn at(start: usize) -> Pinned<Location> {
    Pinned::new("/main.go", loc(start))
}

fn span(content: &str, start: usize) -> Span {
    Span { content: content.to_owned(), location: loc(start) }
}

fn trace(tag: &str) -> LabelBacktrace {
    LabelBacktrace::new_root(
        LabelBacktraceKind::ExplicitAnnotation,
        Label::from_tags(vec![tag]),
        None,
        at(1),
    )
    .unwrap()
}

fn tainted(tag: &str) -> Value {
    Value::from_backtrace_or_bottom_at(Some(trace(tag)), &at(1))
}

fn clean() -> Value {
    Value::from_backtrace_or_bottom_at(None, &at(1))
}

fn text(v: &Value) -> String {
    match v.backtrace() {
        Some(b) => b.label().to_text(),
        None => "none".to_owned(),
    }
}

fn constant(text: &str) -> Option<SimpleConstValue> {
    Some(SimpleConstValue { text: text.to_owned() })
}

fn directive(kind: BlanketDirectiveKind, tag: &str) -> BlanketDirective {
    BlanketDirective::new(kind, OrderedSet::new(), None, None, Label::from_tags(vec![tag]))
}

fn setup() -> (AnalysisContext, SymbolTable) {
    let mut ctx = AnalysisContext::new();
    ctx.log.set_current_file("/main.go");
    let mut table = SymbolTable::new();
    table.enter_package(Pinned::new("/main.go", span("app", 0)), "app");
    (ctx, table)
}

fn declare(table: &mut SymbolTable, name: &str, value: Value) {
    let id = table.add_symbol(Symbol {
        declared_name: Pinned::new("/main.go", span(name, 7)),
        mutable: true,
        value,
        known_const: None,
    });
    table.declare_new_symbol(name, id);
}

fn value(r: &ExprResult) -> String {
    text(&r.value)
}

fn visit(ctx: &mut AnalysisContext, table: &mut SymbolTable, node: ExprNode) -> ExprResult {
    visit_evaluated(ctx, table, node, loc(5))
}

fn name(content: &str, qualifier: Option<&str>, directives: Vec<BlanketDirective>) -> ExprNode {
    ExprNode::Name {
        name: span(content, 9),
        qualifier: qualifier.map(|q| span(q, 8)),
        directives,
    }
}

#[test]
fn names_have_the_values_of_their_symbols() {
    let (mut ctx, mut table) = setup();
    declare(&mut table, "x", tainted("a"));
    let r = visit(&mut ctx, &mut table, name("x", None, vec![]));
    assert_eq!(value(&r), "{a}");
    assert!(ctx.log.take_errors().is_empty());
}

#[test]
fn unknown_names_are_reported() {
    let (mut ctx, mut table) = setup();
    let r = visit(&mut ctx, &mut table, name("nothing", None, vec![]));
    assert_eq!(value(&r), "none");
    assert!(matches!(ctx.log.take_errors()[0].kind, AnalysisErrorKind::UnknownSymbol { .. }));
    visit(&mut ctx, &mut table, name("X", Some("nowhere"), vec![]));
    assert!(matches!(ctx.log.take_errors()[0].kind, AnalysisErrorKind::UnknownQualifier { .. }));
}

#[test]
fn imported_packages_are_values_of_their_own() {
    let (mut ctx, mut table) = setup();
    table.register_import_spec(None, "os", true);
    let r = visit(&mut ctx, &mut table, name("os", None, vec![]));
    assert!(matches!(r.value.form, ValueForm::Package(_)));
    assert!(ctx.log.take_errors().is_empty());
}

#[test]
fn policies_apply_to_names_of_unavailable_packages() {
    let (mut ctx, mut table) = setup();
    table.register_import_spec(None, "os", true);
    let args = visit(
        &mut ctx,
        &mut table,
        name("Args", Some("os"), vec![directive(BlanketDirectiveKind::Source, "untrusted")]),
    );
    assert_eq!(value(&args), "{untrusted}");
    let print = visit(
        &mut ctx,
        &mut table,
        name("Exit", Some("os"), vec![directive(BlanketDirectiveKind::DenySink, "secret")]),
    );
    match print.value.form {
        ValueForm::Function(f) => assert_eq!(table.function(f).directives.len(), 1),
        _ => panic!("a sink is a function"),
    }
}

#[test]
fn names_from_unavailable_dot_imports_are_not_reported() {
    let (mut ctx, mut table) = setup();
    table.register_import_spec(Some(".".to_owned()), "example.com/gone", true);
    visit(&mut ctx, &mut table, name("Public", None, vec![]));
    assert!(ctx.log.take_errors().is_empty());
    visit(&mut ctx, &mut table, name("private", None, vec![]));
    assert_eq!(ctx.log.take_errors().len(), 1);
}

#[test]
fn revocations_take_labels_away_from_names() {
    let (mut ctx, mut table) = setup();
    declare(&mut table, "x", tainted("a"));
    let r = visit(
        &mut ctx,
        &mut table,
        name("x", None, vec![directive(BlanketDirectiveKind::Revocation, "a")]),
    );
    assert_eq!(value(&r), "none");
}

fn binary(left: Option<&str>, right: Option<&str>, short_circuits: bool) -> ExprNode {
    ExprNode::BinaryOp {
        left: left.map(trace),
        right: right.map(trace),
        short_circuits,
        consts: vec![None, None],
        directives: vec![],
    }
}

#[test]
fn operators_unite_their_operands() {
    let (mut ctx, mut table) = setup();
    let both = visit(&mut ctx, &mut table, binary(Some("a"), Some("b"), false));
    assert_eq!(value(&both), "{a, b}");
    let one = visit(&mut ctx, &mut table, binary(None, Some("b"), true));
    assert_eq!(value(&one), "{b}");
    let none = visit(&mut ctx, &mut table, binary(None, None, false));
    assert_eq!(value(&none), "none");
    let logical = visit(&mut ctx, &mut table, binary(Some("a"), Some("b"), true));
    assert_eq!(value(&logical), "{a, b}");
}

#[test]
fn operators_can_be_revoked() {
    let (mut ctx, mut table) = setup();
    let node = ExprNode::BinaryOp {
        left: Some(trace("a")),
        right: Some(trace("b")),
        short_circuits: false,
        consts: vec![None, None],
        directives: vec![directive(BlanketDirectiveKind::Revocation, "a")],
    };
    assert_eq!(value(&visit(&mut ctx, &mut table, node)), "{b}");
}

#[test]
fn right_operands_may_only_be_evaluated_because_of_left_ones() {
    let branch = derive_short_circuit_branch(&Some(trace("a")), true, &at(3)).unwrap();
    assert_eq!(branch.label().to_text(), "{a}");
    assert_eq!(branch.kind(), LabelBacktraceKind::ShortCircuit);
    assert!(derive_short_circuit_branch(&Some(trace("a")), false, &at(3)).is_none());
    assert!(derive_short_circuit_branch(&None, true, &at(3)).is_none());
}

#[test]
fn literals_carry_nothing() {
    let (mut ctx, mut table) = setup();
    assert_eq!(value(&visit(&mut ctx, &mut table, ExprNode::Literal)), "none");
    assert_eq!(value(&visit(&mut ctx, &mut table, ExprNode::Passed(tainted("a")))), "{a}");
}

fn slice() -> Value {
    let mut v = Value::new(ValueForm::Slice, None, at(0), None, vec![]);
    v.set_at_key(ValueForm::Slice, Some(PartKey::Index(0)), tainted("a"), None, &at(2));
    v.set_at_key(ValueForm::Slice, Some(PartKey::Index(1)), tainted("b"), None, &at(2));
    v
}

#[test]
fn elements_are_read_by_their_index() {
    let (mut ctx, mut table) = setup();
    let first = ExprNode::Indexing { base: slice(), index: constant("0") };
    assert_eq!(value(&visit(&mut ctx, &mut table, first)), "{a}");
    let any = ExprNode::Indexing { base: slice(), index: None };
    assert_eq!(value(&visit(&mut ctx, &mut table, any)), "{a, b}");
    let channel = Value::new(ValueForm::Channel, None, at(0), None, vec![]);
    visit(&mut ctx, &mut table, ExprNode::Indexing { base: channel, index: None });
    assert!(matches!(
        ctx.log.take_errors()[0].kind,
        AnalysisErrorKind::InvalidIndexingBase { .. }
    ));
}

#[test]
fn keys_are_read_as_the_form_demands() {
    assert!(matches!(
        find_key(&ValueForm::Slice, &constant("3")),
        Some(PartKey::Index(3))
    ));
    assert!(find_key(&ValueForm::Slice, &constant("x")).is_none());
    assert!(matches!(
        find_key(&ValueForm::Mapping, &constant("x")),
        Some(PartKey::Text(t)) if t == "x"
    ));
    assert!(find_key(&ValueForm::Mapping, &None).is_none());
}

#[test]
fn slices_keep_what_lies_between_their_bounds() {
    let (mut ctx, mut table) = setup();
    let node = ExprNode::Slicing {
        base: slice(),
        low: SliceBound::Known(1),
        high: SliceBound::Omitted,
        has_max: false,
        bounds: vec![],
    };
    assert_eq!(value(&visit(&mut ctx, &mut table, node)), "{b}");
    let channel = Value::new(ValueForm::Channel, None, at(0), None, vec![]);
    let bad = ExprNode::Slicing {
        base: channel,
        low: SliceBound::Omitted,
        high: SliceBound::Omitted,
        has_max: false,
        bounds: vec![],
    };
    visit(&mut ctx, &mut table, bad);
    assert!(matches!(
        ctx.log.take_errors()[0].kind,
        AnalysisErrorKind::InvalidSlicingBase { .. }
    ));
}

fn member() -> Member {
    Member {
        directives: vec![],
        method: None,
        field: None,
        any_method_named: false,
        base_is_external: false,
    }
}

fn record() -> Value {
    Value::compose(
        ValueForm::Struct,
        vec![
            (PartKey::Text("user".to_owned()), clean()),
            (PartKey::Text("password".to_owned()), tainted("secret")),
        ],
        &vec![],
        at(0),
        None,
    )
}

#[test]
fn fields_are_selected_by_name() {
    let (mut ctx, mut table) = setup();
    let node = ExprNode::Selection {
        base: record(),
        selector: span("password", 6),
        member: member(),
    };
    assert_eq!(value(&visit(&mut ctx, &mut table, node)), "{secret}");
    let other =
        ExprNode::Selection { base: record(), selector: span("user", 6), member: member() };
    assert_eq!(value(&visit(&mut ctx, &mut table, other)), "none");
}

#[test]
fn tags_of_fields_show_in_their_values() {
    let (mut ctx, mut table) = setup();
    let tagged = Member {
        field: Some(FieldInfo { declared_type: None, tag_backtrace: Some(trace("tag")) }),
        ..member()
    };
    let mut base = record();
    base.set_declared_type(Some(TypeInfo { name: "T".to_owned(), kind: TypeKind::Struct }));
    let node = ExprNode::Selection { base, selector: span("user", 6), member: tagged };
    assert_eq!(value(&visit(&mut ctx, &mut table, node)), "{tag}");
}

#[test]
fn policies_apply_to_predeclared_functions() {
    let (mut ctx, mut table) = setup();
    let sink = || directive(BlanketDirectiveKind::DenySink, "secret");
    let plain = visit(&mut ctx, &mut table, name("panic", None, vec![])).value;
    let watched = visit(&mut ctx, &mut table, name("panic", None, vec![sink(), sink()])).value;
    match (plain.form, watched.form) {
        (ValueForm::Function(f), ValueForm::Function(g)) => {
            assert!(f != g);
            assert_eq!(table.function(f).directives.len(), 0);
            assert_eq!(table.function(g).directives.len(), 1);
            assert!(matches!(table.function(g).func, FunctionRef::BuiltIn(_)));
        }
        _ => panic!("panic is a function"),
    }
}

#[test]
fn functions_without_new_directives_stay_what_they_are() {
    let (mut ctx, mut table) = setup();
    let mut known = FunctionSummary::new_unknown(FunctionRef::Anonymous(at(3)), None, false);
    known.directives = vec![directive(BlanketDirectiveKind::DenySink, "secret")];
    let f = table.add_function(known);
    declare(&mut table, "g", Value::new(ValueForm::Function(f), None, at(0), None, vec![]));
    let again = vec![directive(BlanketDirectiveKind::DenySink, "secret")];
    let r = visit(&mut ctx, &mut table, name("g", None, again)).value;
    assert!(matches!(r.form, ValueForm::Function(g) if g == f));
}

#[test]
fn plausible_methods_are_functions_with_the_sinks_of_the_policy() {
    let (mut ctx, mut table) = setup();
    let channel = Value::new(ValueForm::Channel, Some(trace("a")), at(0), None, vec![]);
    let watched = Member {
        directives: vec![
            directive(BlanketDirectiveKind::Source, "b"),
            directive(BlanketDirectiveKind::DenySink, "secret"),
        ],
        ..member()
    };
    let node =
        ExprNode::Selection { base: channel, selector: span("Write", 6), member: watched };
    let r = visit(&mut ctx, &mut table, node);
    assert_eq!(value(&r), "{a, b}");
    match r.value.form {
        ValueForm::Function(f) => {
            let method = table.function(f);
            assert!(method.has_receiver);
            assert_eq!(method.directives.len(), 1);
            assert_eq!(method.directives[0].kind(), BlanketDirectiveKind::DenySink);
            assert_eq!(method.own.as_ref().unwrap().label().to_text(), "{a, b}");
        }
        _ => panic!("a plausible method is a function"),
    }
    assert!(ctx.log.take_errors().is_empty());
}

#[test]
fn nothing_can_be_selected_from_some_values() {
    let (mut ctx, mut table) = setup();
    let channel = Value::new(ValueForm::Channel, None, at(0), None, vec![]);
    let node =
        ExprNode::Selection { base: channel, selector: span("f", 6), member: member() };
    visit(&mut ctx, &mut table, node);
    assert!(matches!(
        ctx.log.take_errors()[0].kind,
        AnalysisErrorKind::InvalidSelectionBase { .. }
    ));
}

#[test]
fn type_assertions_also_tell_whether_they_hold() {
    let (mut ctx, mut table) = setup();
    let node = ExprNode::TypeAssertion { base: tainted("a"), declared_type: None };
    let both = visit(&mut ctx, &mut table, node).value.try_expand_to(2).unwrap();
    assert_eq!(text(&both[0]), "{a}");
    assert_eq!(text(&both[1]), "{a}");
}

#[test]
fn brackets_may_hold_types() {
    let (mut ctx, mut table) = setup();
    let instantiated = ExprNode::AmbiguousBracketAccess {
        base: tainted("f"),
        is_type_known: true,
        index: None,
    };
    assert_eq!(value(&visit(&mut ctx, &mut table, instantiated)), "{f}");
    let indexed = ExprNode::AmbiguousBracketAccess {
        base: slice(),
        is_type_known: false,
        index: constant("1"),
    };
    assert_eq!(value(&visit(&mut ctx, &mut table, indexed)), "{b}");
}

#[test]
fn receiving_gives_what_was_sent_and_uses_the_channel() {
    let (mut ctx, mut table) = setup();
    let channel = Value::new(ValueForm::Channel, None, at(0), None, vec![]);
    ctx.branches.push_branch_backtrace(trace("branch"));
    let r = visit(&mut ctx, &mut table, ExprNode::Receive(channel));
    assert_eq!(text(&r.channel.unwrap()), "{branch}");
}

#[test]
fn made_values_carry_what_their_size_does() {
    let (mut ctx, mut table) = setup();
    let node = ExprNode::Make {
        kind: Some(TypeKind::Slice),
        n: Some(tainted("n")),
        m: None,
        declared_type: None,
        directives: vec![],
        arg_consts: vec![None, None],
    };
    assert_eq!(value(&visit(&mut ctx, &mut table, node)), "{n}");
    assert!(ctx.log.take_errors().is_empty());
}

#[test]
fn expressions_have_one_value_where_one_is_needed() {
    let (mut ctx, _) = setup();
    let one = expect_single(&mut ctx.log, vec![tainted("a")], loc(3));
    assert_eq!(text(&one), "{a}");
    expect_single(&mut ctx.log, vec![], loc(3));
    assert!(matches!(
        ctx.log.take_errors()[0].kind,
        AnalysisErrorKind::UnexpectedVoidExpression { .. }
    ));
    expect_single(&mut ctx.log, vec![clean(), clean()], loc(3));
    assert!(matches!(
        ctx.log.take_errors()[0].kind,
        AnalysisErrorKind::UnexpectedMultiValueExpression { .. }
    ));
}

#[test]
fn constants_are_known_of_single_untainted_values() {
    let one = pair_with_const(vec![clean()], constant("1"));
    assert!(one[0].1.is_some());
    let two = pair_with_const(vec![clean(), clean()], constant("1"));
    assert!(two[0].1.is_none());
    assert!(keep_const_if_untainted(&None, constant("1")).is_some());
    assert!(keep_const_if_untainted(&Some(trace("a")), constant("1")).is_none());
}

#[test]
fn list_literals_keep_their_elements_apart() {
    let v = visit_integer_keyed_composite_literal(
        ValueForm::Slice,
        vec![
            (ElementKey::Default, tainted("a")),
            (ElementKey::Known(5), tainted("b")),
            (ElementKey::Default, tainted("c")),
        ],
        at(0),
        None,
    );
    assert_eq!(text(&v.get_at_key(Some(&PartKey::Index(0)), &at(6))), "{a}");
    assert_eq!(text(&v.get_at_key(Some(&PartKey::Index(5)), &at(6))), "{b}");
    assert_eq!(text(&v.get_at_key(Some(&PartKey::Index(6)), &at(6))), "{c}");
}

#[test]
fn map_literals_keep_their_elements_apart() {
    let v = visit_map_composite_literal(
        vec![
            MapElement { key_const: Some("k".to_owned()), key_value: None, value: tainted("a") },
            MapElement { key_const: Some("l".to_owned()), key_value: None, value: clean() },
        ],
        at(0),
        None,
    );
    assert_eq!(text(&v.get_at_key(Some(&PartKey::Text("k".to_owned())), &at(6))), "{a}");
    assert_eq!(text(&v.get_at_key(Some(&PartKey::Text("l".to_owned())), &at(6))), "none");
}

#[test]
fn struct_literals_reject_repeated_fields() {
    let (mut ctx, _) = setup();
    let v = visit_struct_composite_literal(
        &mut ctx.log,
        vec![(Some(span("f", 1)), tainted("a")), (Some(span("g", 3)), clean())],
        false,
        at(0),
        None,
    );
    assert_eq!(text(&v.get_at_key(Some(&PartKey::Text("f".to_owned())), &at(6))), "{a}");
    assert!(ctx.log.take_errors().is_empty());
    visit_struct_composite_literal(
        &mut ctx.log,
        vec![(Some(span("f", 1)), clean()), (Some(span("f", 3)), clean())],
        false,
        at(0),
        None,
    );
    assert!(matches!(
        ctx.log.take_errors()[0].kind,
        AnalysisErrorKind::DuplicateStructFieldName { .. }
    ));
}

#[test]
fn fields_without_names_share_what_they_carry() {
    let v = visit_unnamed_struct_literal(&vec![tainted("a"), clean()], at(0), None);
    assert_eq!(text(&v.get_at_key(Some(&PartKey::Text("any".to_owned())), &at(6))), "{a}");
    let nested = visit_nested_elements(vec![tainted("a"), tainted("b")], &at(0));
    assert_eq!(text(&nested), "{a, b}");
}

#[test]
fn field_names_come_from_declarations() {
    let fields = vec![FieldDecl::Explicit(vec![Some(span("a", 1)), Some(span("b", 2))])];
    assert_eq!(find_field_names(&fields, 2).unwrap().len(), 2);
    assert!(find_field_names(&fields, 3).is_none());
    assert!(gives_fields_by_name(&vec![ListKey::Name, ListKey::Name]));
    assert!(!gives_fields_by_name(&vec![ListKey::Name, ListKey::Other]));
    assert!(!gives_fields_by_name(&vec![]));
}

#[test]
fn literals_have_the_form_of_their_type() {
    assert!(matches!(choose_literal_form(Some(TypeKind::Mapping)), ValueForm::Mapping));
    assert!(matches!(choose_literal_form(Some(TypeKind::Struct)), ValueForm::Struct));
    let mut types: OrderedMap<String, NamedUnderlying> = OrderedMap::new();
    types.insert("A".to_owned(), NamedUnderlying::Name("B".to_owned()));
    types.insert("B".to_owned(), NamedUnderlying::Kind(TypeKind::Slice));
    types.insert("C".to_owned(), NamedUnderlying::Name("C".to_owned()));
    assert!(matches!(
        try_resolve_named_type_underlying(&types, "A"),
        Some(TypeKind::Slice)
    ));
    assert!(try_resolve_named_type_underlying(&types, "C").is_none());
    assert!(try_resolve_named_type_underlying(&types, "D").is_none());
}
