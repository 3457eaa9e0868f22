use glowy::analyzer::Analyzer;
use glowy::config::AnalysisConfig;
use glowy::labels::Label;
use glowy::locations::Location;
use glowy::policy::blanket_directives::BlanketDirectiveKind;
use glowy::policy::targets::{
    contains_text, parse_position, BlanketDirectiveTarget, SimpleConstValue,
};
use glowy::policy::{SinkDescriptor, SinkKind};

fn sink(allow: bool, tags: Vec<&str>) -> SinkDescriptor {
    SinkDescriptor::new(SinkKind::Call, allow, tags, Location { start: 0, end: 1 }).unwrap()
}

fn constant(text: &str) -> Option<SimpleConstValue> {
    Some(SimpleConstValue { text: text.to_owned() })
}

#[test]
fn deny_sinks_reject_any_matching_tag() {
    let s = sink(false, vec!["secret"]);
    assert!(!s.accepts(&Label::from_tags(vec!["secret", "blue"])));
    assert!(s.accepts(&Label::from_tags(vec!["blue"])));
    assert!(s.accepts(&Label::Bottom));
}

#[test]
fn allow_sinks_only_judge_the_axes_that_they_name() {
    let s = sink(true, vec!["integrity:trusted"]);
    assert!(s.accepts(&Label::from_tags(vec!["integrity:trusted"])));
    assert!(!s.accepts(&Label::from_tags(vec!["integrity:untrusted"])));
    assert!(s.accepts(&Label::from_tags(vec!["secret:env"])));
    assert!(!s.accepts(&Label::from_tags(vec!["plain"])));
    assert!(s.accepts(&Label::Bottom));
}

#[test]
fn sinks_understand_wildcards() {
    let s = sink(false, vec!["secret:*"]);
    assert!(!s.accepts(&Label::from_tags(vec!["secret:env"])));
    assert!(s.accepts(&Label::from_tags(vec!["env"])));
}

#[test]
fn a_sink_must_deny_something() {
    let none: Vec<&str> = vec![];
    assert!(
        SinkDescriptor::new(SinkKind::Call, false, none, Location { start: 0, end: 1 }).is_none()
    );
    let nothing: Vec<&str> = vec![];
    assert!(
        SinkDescriptor::new(SinkKind::Call, true, nothing, Location { start: 0, end: 1 }).is_some()
    );
}

#[test]
fn sinks_are_the_same_if_all_of_them_is() {
    assert!(sink(true, vec!["a"]).same_as(&sink(true, vec!["a"])));
    assert!(!sink(true, vec!["a"]).same_as(&sink(false, vec!["a"])));
    assert!(!sink(true, vec!["a"]).same_as(&sink(true, vec!["b"])));
}

#[test]
fn targets_name_packages_and_symbols() {
    let t = BlanketDirectiveTarget::parse("example.com/app.sanitize").unwrap();
    assert_eq!(t.package_path, "example.com/app");
    assert_eq!(t.member_name, "sanitize");
    assert!(t.owner_type.is_none());
    assert!(BlanketDirectiveTarget::parse("nothing").is_none());
    assert!(BlanketDirectiveTarget::parse("").is_none());
}

#[test]
fn targets_select_arguments_and_results() {
    let argument = BlanketDirectiveTarget::parse("example.com/app.publish#0").unwrap();
    assert_eq!(argument.arg_index, Some(0));
    assert_eq!(argument.member_name, "publish");
    let results = BlanketDirectiveTarget::parse("os.LookupEnv->0,1").unwrap();
    assert_eq!(results.result_selector.len(), 2);
    assert!(BlanketDirectiveTarget::parse("os.LookupEnv->x").is_none());
}

#[test]
fn targets_can_be_conditional() {
    let fuzzy = BlanketDirectiveTarget::parse("os.Getenv#0~=TOKEN").unwrap();
    let p = fuzzy.arg_predicate.unwrap();
    assert!(p.may_hold(&vec![constant("MY_TOKEN_2")]));
    assert!(!p.may_hold(&vec![constant("HOME")]));
    assert!(p.may_hold(&vec![None]));
    let exact = BlanketDirectiveTarget::parse("os.Getenv#0=TOKEN").unwrap();
    let q = exact.arg_predicate.unwrap();
    assert!(q.may_hold(&vec![constant("TOKEN")]));
    assert!(!q.may_hold(&vec![constant("MY_TOKEN_2")]));
}

#[test]
fn positions_are_plain_numbers() {
    assert_eq!(parse_position("12"), Some(12));
    assert_eq!(parse_position("0"), Some(0));
    assert_eq!(parse_position(""), None);
    assert_eq!(parse_position("-1"), None);
    assert_eq!(parse_position("1a"), None);
    assert_eq!(parse_position("99999999999999999999999999"), None);
}

#[test]
fn texts_are_found_in_texts() {
    assert!(contains_text("MY_TOKEN", "TOKEN"));
    assert!(contains_text("anything", ""));
    assert!(!contains_text("TOK", "TOKEN"));
}

fn entries(list: Vec<(&str, Vec<&str>)>) -> indexmap::IndexMap<String, Vec<String>> {
    list.into_iter()
        .map(|(k, v)| (k.to_owned(), v.into_iter().map(str::to_owned).collect()))
        .collect()
}

#[test]
fn configured_directives_apply_to_their_targets() {
    let mut a = Analyzer::new("example.com/app");
    let config = AnalysisConfig {
        inherit_base_policy: false,
        sources: entries(vec![("os.Getenv", vec!["secret:env"])]),
        revocations: entries(vec![("example.com/app.sanitize", vec!["secret:*"])]),
        allow_sinks: entries(vec![("example.com/app.publish#0", vec!["integrity:trusted"])]),
        deny_sinks: entries(vec![("fmt.Println", vec!["secret:*"])]),
        ..AnalysisConfig::default()
    };
    assert!(!a.has_blanket_enforcement_checks());
    assert!(a.ingest_structured_config(&config).is_ok());
    assert!(a.has_blanket_enforcement_checks());
    let source = a.blanket_directives_for("os", None, "Getenv").unwrap();
    assert_eq!(source.len(), 1);
    assert_eq!(source[0].kind(), BlanketDirectiveKind::Source);
    assert_eq!(source[0].label().to_text(), "{secret:env}");
    let revocation = a.blanket_directives_for("example.com/app", None, "sanitize").unwrap();
    assert_eq!(revocation[0].kind(), BlanketDirectiveKind::Revocation);
    assert_eq!(revocation[0].label().to_text(), "{secret:*}");
    let publish = a.blanket_directives_for("example.com/app", None, "publish").unwrap();
    assert_eq!(publish[0].kind(), BlanketDirectiveKind::AllowSink);
    assert_eq!(publish[0].arg_index(), Some(0));
    let print = a.blanket_directives_for("fmt", None, "Println").unwrap();
    assert_eq!(print[0].kind(), BlanketDirectiveKind::DenySink);
    assert!(a.blanket_directives_for("fmt", None, "Printf").is_none());
}

#[test]
fn directives_keep_the_order_in_which_they_are_given() {
    let mut a = Analyzer::new("example.com/app");
    let config = AnalysisConfig {
        sources: entries(vec![
            ("os.Getenv#0=B", vec!["b"]),
            ("os.Getenv#0=A", vec!["a"]),
            ("os.Getenv", vec!["c"]),
        ]),
        ..AnalysisConfig::default()
    };
    a.ingest_structured_config(&config).unwrap();
    let source = a.blanket_directives_for("os", None, "Getenv").unwrap();
    let texts: Vec<String> = source.iter().map(|d| d.label().to_text()).collect();
    assert_eq!(texts, vec!["{b}", "{a}", "{c}"]);
    assert!(source[0].should_resolve_at_call_time());
    assert!(!source[2].should_resolve_at_call_time());
}

#[test]
fn malformed_targets_are_refused() {
    let mut a = Analyzer::new("example.com/app");
    let config = AnalysisConfig {
        deny_sinks: entries(vec![("nothing", vec!["x"])]),
        ..AnalysisConfig::default()
    };
    assert_eq!(a.ingest_structured_config(&config).unwrap_err(), "nothing");
}

#[test]
fn sources_and_sinks_can_be_added_one_by_one() {
    let mut a = Analyzer::new("example.com/app");
    a.add_blanket_source("os", None, "Getenv", &Label::from_tags(vec!["x"]));
    a.add_blanket_source("os", None, "Getenv", &Label::from_tags(vec!["y"]));
    assert_eq!(a.blanket_directives_for("os", None, "Getenv").unwrap().len(), 2);
    assert!(!a.has_blanket_enforcement_checks());
    let target = BlanketDirectiveTarget::parse("fmt.Println").unwrap();
    a.add_blanket_sink(target, false, &Label::from_tags(vec!["x"]));
    assert!(a.has_blanket_enforcement_checks());
}
