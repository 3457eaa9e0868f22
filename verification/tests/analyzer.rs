use glowy::analyzer::convergence::{
    reverse_transitive_dependencies, unstable_packages, Convergence, NextPass,
};
use glowy::analyzer::outcomes::without_repetitions;
use glowy::analyzer::runs::Run;
use glowy::analyzer::Analyzer;
use glowy::ast::{BuildConstraintExprNode, FileOutlineNode, SourceFileNode};
use glowy::config::AnalysisConfig;
use glowy::context::reports::AnalysisStage;
use glowy::context::AnalysisContext;
use glowy::errors::{AnalysisError, AnalysisErrorKind};
use glowy::files::SourceFile;
use glowy::locations::{Location, Pinned, Span};
use glowy::ordered::{OrderedMap, OrderedSet};
use glowy::snapshots::{SymbolTableSnapshot, SymbolTableSnapshotItem};
use glowy::values::Value;

fn loc(start: usize) -> Location {
    Location { start, end: start + 1 }
}

fn with_files(paths: Vec<&str>) -> Analyzer {
    let mut a = Analyzer::new("example.com/app");
    for p in paths {
        a.add_file(SourceFile::new(p.to_owned(), String::new()));
    }
    a
}

fn outline() -> FileOutlineNode {
    FileOutlineNode {
        package: Span { content: "app".to_owned(), location: Location { start: 0, end: 3 } },
        imports: vec![],
        decls: vec![],
    }
}

fn parsed() -> Result<SourceFileNode, AnalysisErrorKind> {
    Ok(SourceFileNode { build_constraint: None, outline: outline(), decls: vec![] })
}

fn tagged(tag: &str) -> Result<SourceFileNode, AnalysisErrorKind> {
    Ok(SourceFileNode {
        build_constraint: Some(BuildConstraintExprNode::Tag(tag.to_owned())),
        outline: outline(),
        decls: vec![],
    })
}

fn unreachable(file: &str, start: usize) -> AnalysisError {
    AnalysisError {
        file: file.to_owned(),
        kind: AnalysisErrorKind::Unreachable { location: loc(start) },
    }
}

fn unexpected(file: &str, start: usize) -> AnalysisError {
    AnalysisError {
        file: file.to_owned(),
        kind: AnalysisErrorKind::UnexpectedReturn { location: loc(start) },
    }
}

#[test]
fn there_must_be_something_to_analyze() {
    let a = Analyzer::new("example.com/app");
    let errors = a.analyze(vec![], |_, _| vec![]).unwrap_err();
    assert_eq!(errors.len(), 1);
    assert!(matches!(errors[0].kind, AnalysisErrorKind::NoRegisteredFiles));
}

#[test]
fn files_that_cannot_be_parsed_are_all_reported() {
    let a = with_files(vec!["/a.go", "/b.go", "/c.go"]);
    let bad = |start| {
        Err(AnalysisErrorKind::Parsing { message: "no".to_owned(), location: loc(start) })
    };
    let errors = a.analyze(vec![bad(1), parsed(), bad(2)], |_, _| vec![]).unwrap_err();
    assert_eq!(errors.len(), 2);
    assert_eq!(errors[0].file, "/a.go");
    assert_eq!(errors[1].file, "/c.go");
}

#[test]
fn paths_must_be_distinct() {
    let a = with_files(vec!["/a.go", "/a.go"]);
    let errors = a.parse_files(vec![parsed(), parsed()]).unwrap_err();
    assert_eq!(errors.len(), 1);
    assert!(matches!(errors[0].kind, AnalysisErrorKind::DuplicateVirtualFilePath));
}

#[test]
fn every_permutation_is_analyzed() {
    let a = with_files(vec!["/a.go", "/b.go"]);
    let r = a.analyze(vec![parsed(), tagged("special")], |p, _| {
        vec![unexpected("/a.go", p.admitted.len())]
    });
    let errors = r.unwrap_err();
    assert_eq!(errors.len(), 2);
    assert!(a.analyze(vec![parsed(), parsed()], |_, _| vec![]).is_ok());
}

#[test]
fn the_number_of_permutations_is_limited() {
    let mut a = with_files(vec!["/a.go", "/b.go"]);
    let config = AnalysisConfig { max_build_permutations: 1, ..AnalysisConfig::default() };
    a.ingest_structured_config(&config).unwrap();
    let errors = a.analyze(vec![parsed(), tagged("special")], |_, _| vec![]).unwrap_err();
    assert!(matches!(
        errors[0].kind,
        AnalysisErrorKind::TooManyBuildPermutations { limit: 1, found: 2 }
    ));
}

#[test]
fn files_of_a_permutation_are_listed() {
    let a = with_files(vec!["/a.go", "/b.go"]);
    let files = a.parse_files(vec![parsed(), tagged("special")]).unwrap();
    let perms = a.plan(&files).unwrap();
    assert_eq!(perms.len(), 2);
    for p in &perms {
        let listed = a.admitted_files(p);
        assert_eq!(listed.len(), p.admitted.len());
        assert_eq!(listed[0], 0);
    }
}

#[test]
fn only_files_of_unstable_packages_are_visited_again() {
    let a = with_files(vec!["/a.go", "/lib/b.go", "/other/c.go"]);
    let admitted = vec![0, 1, 2];
    let g = graph(vec![
        ("example.com/app", vec!["example.com/app/lib"]),
        ("example.com/app/lib", vec![]),
        ("example.com/app/other", vec![]),
    ]);
    let seen = |name| {
        snapshots(vec![
            ("example.com/app", "x"),
            ("example.com/app/lib", name),
            ("example.com/app/other", "o"),
        ])
    };
    let mut c = Convergence::new();
    assert_eq!(a.files_to_visit(&admitted, &c), vec![0, 1, 2]);
    c.complete_pass(seen("y"), &g);
    c.complete_pass(seen("y"), &g);
    c.complete_pass(seen("z"), &g);
    assert_eq!(a.files_to_visit(&admitted, &c), vec![0, 1]);
}

#[test]
fn permutations_are_analyzed_in_passes() {
    let a = with_files(vec!["/a.go"]);
    let none = graph(vec![]);
    let mut run = Run::new();
    let mut stages = vec![];
    while run.begin_pass() {
        stages.push(run.ctx.log.stage());
        for file in a.files_to_visit(&vec![0], &run.progress) {
            run.ctx.log.set_current_file(a.file_path(file));
            assert_eq!(a.package_of(file), "example.com/app");
        }
        run.end_pass(&none);
    }
    assert!(matches!(
        stages.as_slice(),
        [
            AnalysisStage::RecordDeclarations,
            AnalysisStage::StabilizeLabels,
            AnalysisStage::EnforceSecurityPolicies,
        ]
    ));
    let errors = run.finish(&a, false);
    assert_eq!(errors.len(), 1);
    assert!(matches!(errors[0].kind, AnalysisErrorKind::NoSecurityPolicy));
}

#[test]
fn reports_are_put_together_without_repetitions() {
    let a = with_files(vec![]);
    let reports = vec![
        vec![unexpected("/a.go", 1), unexpected("/a.go", 2)],
        vec![unexpected("/a.go", 1), unexpected("/b.go", 1)],
    ];
    let errors = a.conclude(reports).unwrap_err();
    assert_eq!(errors.len(), 3);
    assert!(errors[0].same_as(&unexpected("/a.go", 1)));
    assert!(errors[1].same_as(&unexpected("/a.go", 2)));
    assert!(errors[2].same_as(&unexpected("/b.go", 1)));
    assert!(a.conclude(vec![vec![], vec![]]).is_ok());
}

#[test]
fn repetitions_are_dropped_in_order() {
    let errors = without_repetitions(vec![
        unexpected("/b.go", 1),
        unexpected("/a.go", 1),
        unexpected("/b.go", 1),
    ]);
    assert_eq!(errors.len(), 2);
    assert_eq!(errors[0].file, "/b.go");
    assert_eq!(errors[1].file, "/a.go");
}

#[test]
fn unreachable_code_is_only_reported_on_request() {
    let mut a = with_files(vec![]);
    assert!(a.conclude(vec![vec![unreachable("/a.go", 1)]]).is_ok());
    let config = AnalysisConfig { report_unreachable: true, ..AnalysisConfig::default() };
    a.ingest_structured_config(&config).unwrap();
    assert_eq!(a.conclude(vec![vec![unreachable("/a.go", 1)]]).unwrap_err().len(), 1);
}

#[test]
fn configurations_are_merged_into_the_analyzer() {
    let mut a = with_files(vec![]);
    let config =
        AnalysisConfig { verbose: true, include_tests: true, ..AnalysisConfig::default() };
    a.ingest_structured_config(&config).unwrap();
    assert!(a.is_verbose());
    assert!(a.admits_file_name("main_test.go"));
}

#[test]
fn policies_that_check_nothing_are_reported() {
    let a = with_files(vec![]);
    let mut ctx = AnalysisContext::new();
    a.report_missing_policy(&mut ctx, true);
    assert!(ctx.log.take_errors().is_empty());
    a.report_missing_policy(&mut ctx, false);
    let errors = ctx.log.take_errors();
    assert_eq!(errors.len(), 1);
    assert!(matches!(errors[0].kind, AnalysisErrorKind::NoSecurityPolicy));
}

fn graph(edges: Vec<(&str, Vec<&str>)>) -> OrderedMap<String, OrderedSet<String>> {
    let mut m: OrderedMap<String, OrderedSet<String>> = OrderedMap::new();
    for (package, imports) in edges {
        let mut s: OrderedSet<String> = OrderedSet::new();
        for i in imports {
            s.insert(i.to_owned());
        }
        m.insert(package.to_owned(), s);
    }
    m
}

fn set(names: Vec<&str>) -> OrderedSet<String> {
    let mut s: OrderedSet<String> = OrderedSet::new();
    for n in names {
        s.insert(n.to_owned());
    }
    s
}

#[test]
fn importers_of_changed_packages_are_visited_again() {
    let g = graph(vec![("app", vec!["lib"]), ("lib", vec!["base"]), ("other", vec![])]);
    let r = reverse_transitive_dependencies(&g, &set(vec!["base"]));
    assert!(r.contains(&"base".to_owned()));
    assert!(r.contains(&"lib".to_owned()));
    assert!(r.contains(&"app".to_owned()));
    assert!(!r.contains(&"other".to_owned()));
}

fn snapshot(name: &str) -> SymbolTableSnapshot {
    let at = Pinned::new("/main.go", loc(1));
    SymbolTableSnapshot::from_items(vec![SymbolTableSnapshotItem::new(
        "app".to_owned(),
        name.to_owned(),
        true,
        Value::new_bottom(at, None),
        None,
    )])
}

fn snapshots(list: Vec<(&str, &str)>) -> OrderedMap<String, SymbolTableSnapshot> {
    let mut m: OrderedMap<String, SymbolTableSnapshot> = OrderedMap::new();
    for (package, name) in list {
        m.insert(package.to_owned(), snapshot(name));
    }
    m
}

#[test]
fn packages_are_unstable_while_they_change() {
    let current = snapshots(vec![("app", "x"), ("lib", "y")]);
    assert_eq!(unstable_packages(None, &current).len(), 2);
    let previous = snapshots(vec![("app", "x"), ("lib", "z")]);
    let r = unstable_packages(Some(&previous), &current);
    assert_eq!(r.len(), 1);
    assert!(r.contains(&"lib".to_owned()));
}

#[test]
fn passes_are_made_until_all_packages_are_stable() {
    let g = graph(vec![("app", vec!["lib"]), ("lib", vec![]), ("other", vec![])]);
    let mut c = Convergence::new();
    assert!(matches!(c.next_pass(), NextPass::RecordDeclarations));
    c.complete_pass(snapshots(vec![]), &g);
    assert!(matches!(c.next_pass(), NextPass::StabilizeLabels(None)));
    assert!(c.visits("app"));
    c.complete_pass(snapshots(vec![("app", "x"), ("lib", "y"), ("other", "o")]), &g);
    assert!(c.visits("other"));
    c.complete_pass(snapshots(vec![("app", "x"), ("lib", "z"), ("other", "o")]), &g);
    assert!(c.visits("app"));
    assert!(c.visits("lib"));
    assert!(!c.visits("other"));
    c.complete_pass(snapshots(vec![("app", "x"), ("lib", "z"), ("other", "o")]), &g);
    assert!(matches!(c.next_pass(), NextPass::EnforceSecurityPolicies));
    assert!(c.visits("other"));
    c.complete_pass(snapshots(vec![]), &g);
    assert!(matches!(c.next_pass(), NextPass::Finished));
    assert!(!c.visits("app"));
}
