use glowy::locations::{Location, Span};
use glowy::ast::{BuildConstraintExprNode, FileOutlineNode, SourceFileNode};
use glowy::build_constraints::{
    advance_assignment, always_active_tags, enumerate_build_permutations,
    implicit_tags_from_filename, is_conventional_ignore_tag, is_go_version_tag, is_known_compiler,
    is_known_goarch, is_known_goos, should_ignore,
};
use glowy::ordered::OrderedMap;

fn tag(name: &str) -> BuildConstraintExprNode {
    BuildConstraintExprNode::Tag(name.to_owned())
}

fn not(e: BuildConstraintExprNode) -> BuildConstraintExprNode {
    BuildConstraintExprNode::Not(Box::new(e))
}

fn outline() -> FileOutlineNode {
    FileOutlineNode {
        package: Span { content: "app".to_owned(), location: Location { start: 0, end: 3 } },
        imports: vec![],
        decls: vec![],
    }
}

fn file(constraint: Option<BuildConstraintExprNode>) -> SourceFileNode {
    SourceFileNode { build_constraint: constraint, outline: outline(), decls: vec![] }
}

fn files(list: Vec<(&str, Option<BuildConstraintExprNode>)>) -> OrderedMap<String, SourceFileNode> {
    let mut m: OrderedMap<String, SourceFileNode> = OrderedMap::new();
    for (path, constraint) in list {
        m.insert(path.to_owned(), file(constraint));
    }
    m
}

#[test]
fn well_known_names_are_known() {
    assert!(is_known_goos("linux"));
    assert!(!is_known_goos("amd64"));
    assert!(is_known_goarch("amd64"));
    assert!(!is_known_goarch("linux"));
    assert!(is_known_compiler("gc"));
    assert!(!is_known_compiler("clang"));
    assert!(is_conventional_ignore_tag("ignore"));
    assert!(!is_conventional_ignore_tag("linux"));
}

#[test]
fn go_versions_are_recognized() {
    assert!(is_go_version_tag("go1.21"));
    assert!(!is_go_version_tag("go2"));
    assert!(!is_go_version_tag("go1."));
    assert!(!is_go_version_tag("gopher"));
}

#[test]
fn file_names_imply_tags() {
    assert_eq!(implicit_tags_from_filename("main.go"), None);
    assert_eq!(implicit_tags_from_filename("net_linux.go"), Some(vec!["linux".to_owned()]));
    assert_eq!(implicit_tags_from_filename("net_amd64.go"), Some(vec!["amd64".to_owned()]));
    assert_eq!(
        implicit_tags_from_filename("net_linux_amd64.go"),
        Some(vec!["linux".to_owned(), "amd64".to_owned()])
    );
    assert_eq!(
        implicit_tags_from_filename("net_linux_test.go"),
        Some(vec!["linux".to_owned()])
    );
    assert_eq!(implicit_tags_from_filename("linux.go"), None);
}

#[test]
fn files_can_be_left_out_by_convention() {
    assert!(should_ignore(&tag("ignore")));
    assert!(!should_ignore(&tag("linux")));
    assert!(!should_ignore(&not(tag("ignore"))));
}

#[test]
fn assignments_count_up() {
    let mut bits = vec![true, false];
    assert!(advance_assignment(&mut bits));
    assert_eq!(bits, vec![false, true]);
    assert!(advance_assignment(&mut bits));
    assert_eq!(bits, vec![true, true]);
    assert!(!advance_assignment(&mut bits));
}

#[test]
fn unconstrained_files_form_one_permutation() {
    let m = files(vec![("/a.go", None), ("/b.go", None)]);
    let perms = enumerate_build_permutations(&m, 256).unwrap();
    assert_eq!(perms.len(), 1);
    assert_eq!(perms[0].admitted.len(), 2);
}

#[test]
fn alternative_files_are_never_compiled_together() {
    let m = files(vec![
        ("/a.go", None),
        ("/fast.go", Some(tag("fast"))),
        ("/slow.go", Some(not(tag("fast")))),
    ]);
    let perms = enumerate_build_permutations(&m, 256).unwrap();
    assert_eq!(perms.len(), 2);
    for p in &perms {
        assert_eq!(p.admitted.len(), 2);
        assert!(p.admitted.contains(&"/a.go".to_owned()));
        assert!(
            p.admitted.contains(&"/fast.go".to_owned())
                != p.admitted.contains(&"/slow.go".to_owned())
        );
    }
}

#[test]
fn operating_systems_exclude_each_other() {
    let m = files(vec![("/a_linux.go", None), ("/a_windows.go", None)]);
    let perms = enumerate_build_permutations(&m, 256).unwrap();
    for p in &perms {
        assert!(
            !(p.admitted.contains(&"/a_linux.go".to_owned())
                && p.admitted.contains(&"/a_windows.go".to_owned()))
        );
    }
}

#[test]
fn too_many_permutations_are_refused_with_their_number() {
    let m = files(vec![
        ("/a.go", Some(tag("one"))),
        ("/b.go", Some(tag("two"))),
        ("/c.go", None),
    ]);
    assert_eq!(enumerate_build_permutations(&m, 4).unwrap().len(), 4);
    assert_eq!(enumerate_build_permutations(&m, 3).unwrap_err(), 4);
}

#[test]
fn active_tags_decide_which_files_are_admitted() {
    let m = files(vec![("/a.go", Some(tag("one"))), ("/c.go", None)]);
    let perms = enumerate_build_permutations(&m, 256).unwrap();
    assert_eq!(perms.len(), 2);
    for p in &perms {
        let tags = p.tag_sets.at(0);
        let one = tags.contains("one");
        assert_eq!(tags.admits_file("/a.go", &Some(tag("one"))), one);
        assert!(tags.admits_file("/c.go", &None));
        assert_eq!(tags.evaluate_expr(&not(tag("one"))), !one);
        assert!(tags.evaluate_expr(&BuildConstraintExprNode::Or(vec![
            tag("one"),
            not(tag("one")),
        ])));
        assert!(!tags.evaluate_expr(&BuildConstraintExprNode::And(vec![
            tag("one"),
            not(tag("one")),
        ])));
        assert_eq!(p.admitted.contains(&"/a.go".to_owned()), one);
    }
}

#[test]
fn tags_that_never_vary_are_found() {
    let m = files(vec![("/a.go", Some(tag("one"))), ("/c.go", None)]);
    let perms = enumerate_build_permutations(&m, 256).unwrap();
    assert!(!always_active_tags(&perms).contains(&"one".to_owned()));
    assert!(always_active_tags(&Vec::new()).len() == 0);
}
