use glowy::functions::FunctionRef;
use glowy::labels::backtraces::{LabelBacktrace, LabelBacktraceKind};
use glowy::labels::tags::{ConcreteLabelTag, LabelTag, SyntheticSlot};
use glowy::labels::Label;
use glowy::locations::{Location, Pinned, Span};
use glowy::ordered::{Order, OrderedMap};

fn label(tags: Vec<&str>) -> Label {
    Label::from_tags(tags)
}

fn policy(tags: Vec<&str>) -> Label {
    let mut l = Label::from_tags(tags);
    l.accept_wildcards();
    l
}

fn at(start: usize) -> Pinned<Location> {
    Pinned::new("/main.go", Location { start, end: start + 1 })
}

fn root(tags: Vec<&str>, start: usize) -> LabelBacktrace {
    LabelBacktrace::new_root(
        LabelBacktraceKind::ExplicitAnnotation,
        label(tags),
        None,
        at(start),
    )
    .unwrap()
}

fn function(name: &str) -> FunctionRef {
    FunctionRef::Named(Pinned::new(
        "/main.go",
        Span { content: name.to_owned(), location: Location { start: 0, end: 1 } },
    ))
}

fn placeholder(func: &str, slot: SyntheticSlot) -> Label {
    Label::from_single(LabelTag::Synthetic { func: function(func), slot, identifier: None })
}

#[test]
fn unions_hold_the_tags_of_both_labels() {
    let a = label(vec!["alice"]);
    let b = label(vec!["bob"]);
    let both = a.union(&b);
    assert_eq!(both.to_text(), "{alice, bob}");
    assert!(a.is_subset_of(&both));
    assert!(b.is_subset_of(&both));
    assert!(!both.is_subset_of(&a));
}

#[test]
fn labels_without_tags_are_bottom() {
    let none: Vec<&str> = vec![];
    assert!(label(none).is_bottom());
    assert_eq!(Label::Bottom.to_text(), "{}");
    assert!(Label::Bottom.is_subset_of(&label(vec!["x"])));
}

#[test]
fn tags_are_listed_once_and_in_order() {
    assert_eq!(label(vec!["b", "a", "b"]).to_text(), "{a, b}");
    assert_eq!(label(vec!["b", "a", "b"]).count(), 2);
}

#[test]
fn shorthands_bind_tags_to_their_axes() {
    let secret = ConcreteLabelTag::from_text("$env");
    assert_eq!(secret.axis(), Some("secret"));
    assert_eq!(secret.tag(), "env");
    let untrusted = ConcreteLabelTag::from_text("?form");
    assert_eq!(untrusted.axis(), Some("untrusted"));
    assert_eq!(untrusted.tag(), "form");
    let bound = ConcreteLabelTag::from_text("integrity : untrusted");
    assert_eq!(bound.axis(), Some("integrity"));
    assert_eq!(bound.tag(), "untrusted");
    let plain = ConcreteLabelTag::from_text("violet");
    assert_eq!(plain.axis(), None);
    assert_eq!(plain.to_text(), "violet");
    assert_eq!(ConcreteLabelTag::from_text("$").to_text(), "$");
}

#[test]
fn wildcards_are_only_read_where_they_are_accepted() {
    let literal = label(vec!["secret:*"]);
    let wildcard = policy(vec!["secret:*"]);
    let env = label(vec!["secret:env"]);
    assert!(!env.is_subset_of(&literal));
    assert!(env.is_subset_of(&wildcard));
    assert!(!label(vec!["env"]).is_subset_of(&wildcard));
}

#[test]
fn wildcards_absorb_what_they_cover() {
    let both = policy(vec!["dir:*", "dir:north", "blue"]);
    assert_eq!(both.count(), 2);
    assert!(label(vec!["dir:south"]).is_subset_of(&both));
    assert!(both.difference(&policy(vec!["dir:*"])).same_as(&label(vec!["blue"])));
    assert!(label(vec!["dir:north", "blue"])
        .intersect(&policy(vec!["dir:*"]))
        .same_as(&label(vec!["dir:north"])));
}

#[test]
fn labels_relate_like_sets() {
    let small = label(vec!["a"]);
    let large = label(vec!["a", "b"]);
    assert!(matches!(small.relation(&large), Some(Order::Less)));
    assert!(matches!(large.relation(&small), Some(Order::Greater)));
    assert!(matches!(small.relation(&label(vec!["a"])), Some(Order::Equal)));
    assert!(small.relation(&label(vec!["b"])).is_none());
    assert!(small == label(vec!["a"]));
    assert!(small != large);
}

#[test]
fn restriction_keeps_tags_without_an_axis() {
    let l = label(vec!["plain", "secret:env", "dir:north"]);
    let axes = label(vec!["secret:x"]).axes();
    assert!(l.restrict_to_axes(&axes).same_as(&label(vec!["plain", "secret:env"])));
}

#[test]
fn sequences_are_cut_at_arrows() {
    let s = Label::sequence_from_tags(&vec!["a", "->", "b", "c"]);
    assert_eq!(s.len(), 2);
    assert!(s[0].same_as(&label(vec!["a"])));
    assert!(s[1].same_as(&label(vec!["b", "c"])));
}

#[test]
fn placeholders_are_written_with_their_function() {
    assert_eq!(placeholder("f", SyntheticSlot::Param(2)).to_text(), "{<f#2>}");
    assert_eq!(placeholder("f", SyntheticSlot::Receiver).to_text(), "{<f$RECEIVER>}");
    assert_eq!(placeholder("f", SyntheticSlot::Capture(0)).to_text(), "{<f$CAPTURE#0>}");
    assert_eq!(placeholder("f", SyntheticSlot::CallSiteBranch).to_text(), "{<f$BRANCH>}");
    assert_eq!(placeholder("f", SyntheticSlot::YieldFeedback).to_text(), "{<f$YIELD_FEEDBACK>}");
    let named = LabelTag::Synthetic {
        func: function("f"),
        slot: SyntheticSlot::Param(0),
        identifier: Some(Span {
            content: "x".to_owned(),
            location: Location { start: 3, end: 4 },
        }),
    };
    assert_eq!(named.to_text(), "<f#0:x>");
}

#[test]
fn placeholders_can_be_taken_away_and_moved() {
    let l = placeholder("f", SyntheticSlot::Param(0)).union(&label(vec!["a"]));
    assert!(l.has_any_synthetic());
    assert!(l.contains_synthetic_representation(&function("f"), SyntheticSlot::Param(0)));
    assert!(!l.contains_synthetic_representation(&function("g"), SyntheticSlot::Param(0)));
    assert!(l
        .without_synthetic(&function("f"), SyntheticSlot::Param(0))
        .same_as(&label(vec!["a"])));
    let moved = l.rebind_synthetic_func(&function("f"), &function("g"));
    assert!(moved.contains_synthetic_representation(&function("g"), SyntheticSlot::Param(0)));
    assert!(!moved.contains_synthetic_representation(&function("f"), SyntheticSlot::Param(0)));
}

#[test]
fn captures_are_renumbered_with_their_function() {
    let mut slots: OrderedMap<usize, usize> = OrderedMap::new();
    slots.insert(0, 5);
    let l = placeholder("f", SyntheticSlot::Capture(0));
    let moved = l.remap_synthetics(&function("f"), &function("g"), &slots);
    assert!(moved.contains_synthetic_representation(&function("g"), SyntheticSlot::Capture(5)));
}

#[test]
fn bottom_has_no_backtrace() {
    let none: Vec<&str> = vec![];
    assert!(LabelBacktrace::new_root(
        LabelBacktraceKind::ExplicitAnnotation,
        label(none),
        None,
        at(0),
    )
    .is_none());
}

#[test]
fn folding_unites_labels_and_keeps_what_they_come_from() {
    let a = root(vec!["a"], 1);
    let b = root(vec!["b"], 2);
    let both = LabelBacktrace::fold(
        &vec![&a, &b],
        LabelBacktraceKind::Expression,
        None,
        at(3),
    )
    .unwrap();
    assert!(both.label().same_as(&label(vec!["a", "b"])));
    assert_eq!(both.kind(), LabelBacktraceKind::Expression);
    assert_eq!(both.children().len(), 2);
    assert!(both.children()[0].same_as(&a));
    assert!(both.children()[1].same_as(&b));
    let none: Vec<&LabelBacktrace> = vec![];
    assert!(
        LabelBacktrace::fold(&none, LabelBacktraceKind::Expression, None, at(3)).is_none()
    );
}

#[test]
fn one_of_two_backtraces_stays_as_it_is() {
    let a = root(vec!["a"], 1);
    let only = LabelBacktrace::combine_options(
        Some(a.clone()),
        None,
        LabelBacktraceKind::Expression,
        &at(3),
    )
    .unwrap();
    assert!(only.same_as(&a));
}

#[test]
fn restriction_keeps_the_part_with_a_label() {
    let a = root(vec!["a"], 1);
    let b = root(vec!["b"], 2);
    let both = a.union(&b, LabelBacktraceKind::Expression, at(3));
    let part = both.restrict_to_label(&label(vec!["a"])).unwrap();
    assert!(part.label().same_as(&label(vec!["a"])));
    assert!(both.restrict_to_label(&label(vec!["c"])).is_none());
}

#[test]
fn subtraction_takes_labels_away() {
    let mut both = root(vec!["a"], 1).union(&root(vec!["b"], 2), LabelBacktraceKind::Expression, at(3));
    assert!(both.subtract_label(&label(vec!["a"])));
    assert!(both.label().same_as(&label(vec!["b"])));
    assert!(!both.subtract_label(&label(vec!["b"])));
}

#[test]
fn realization_puts_arguments_in_the_place_of_parameters() {
    let parameter = LabelBacktrace::new_root(
        LabelBacktraceKind::FunctionParameter,
        placeholder("f", SyntheticSlot::Param(0)),
        Some("x".to_owned()),
        at(1),
    )
    .unwrap();
    let secret = root(vec!["secret"], 2);
    let realized =
        parameter.realize(&function("f"), SyntheticSlot::Param(0), Some(&secret)).unwrap();
    assert!(realized.label().same_as(&label(vec!["secret"])));
    assert_eq!(realized.kind(), LabelBacktraceKind::FunctionArgument);
    assert!(parameter.realize(&function("f"), SyntheticSlot::Param(0), None).is_none());
    let other = parameter.realize(&function("g"), SyntheticSlot::Param(0), Some(&secret)).unwrap();
    assert!(other.label().has_any_synthetic());
}

#[test]
fn all_placeholders_are_realized_at_once() {
    let x = LabelBacktrace::new_root(
        LabelBacktraceKind::FunctionParameter,
        placeholder("f", SyntheticSlot::Param(0)),
        None,
        at(1),
    )
    .unwrap();
    let y = LabelBacktrace::new_root(
        LabelBacktraceKind::FunctionParameter,
        placeholder("f", SyntheticSlot::Param(1)),
        None,
        at(2),
    )
    .unwrap();
    let both = x.union(&y, LabelBacktraceKind::Expression, at(3));
    let a = root(vec!["a"], 4);
    let r = both
        .realize_all(
            &function("f"),
            &vec![(SyntheticSlot::Param(0), Some(&a)), (SyntheticSlot::Param(1), None)],
        )
        .unwrap();
    assert!(r.label().same_as(&label(vec!["a"])));
}

#[test]
fn realized_placeholders_show_how_they_came_about() {
    assert_eq!(
        SyntheticSlot::Receiver.realized_backtrace_kind(),
        LabelBacktraceKind::MethodReceiver
    );
    assert_eq!(
        SyntheticSlot::Capture(1).realized_backtrace_kind(),
        LabelBacktraceKind::ClosureCaptureBinding
    );
    assert_eq!(
        SyntheticSlot::CallSiteBranch.realized_backtrace_kind(),
        LabelBacktraceKind::Branch
    );
}

#[test]
fn functions_are_written_by_name_or_place() {
    assert_eq!(function("main").to_text(), "main");
    assert!(function("main").is_main());
    assert!(!function("other").is_main());
    assert_eq!(FunctionRef::Anonymous(at(17)).to_text(), "func@17");
    assert_eq!(FunctionRef::BuiltIn("len".to_owned()).to_text(), "len");
}
