use glowy::labels::backtraces::{LabelBacktrace, LabelBacktraceKind};
use glowy::labels::Label;
use glowy::locations::{Location, Pinned};
use glowy::snapshots::SnapshotAware;
use glowy::values::{PartKey, TypeInfo, TypeKind, Value, ValueForm};

fn at(start: usize) -> Pinned<Location> {
    Pinned::new("/main.go", Location { start, end: start + 1 })
}

fn trace(tag: &str) -> LabelBacktrace {
    LabelBacktrace::new_root(
        LabelBacktraceKind::ExplicitAnnotation,
        Label::from_tags(vec![tag]),
        None,
        at(1),
    )
    .unwrap()
}

fn tainted(tag: &str) -> Value {
    Value::from_backtrace_or_bottom_at(Some(trace(tag)), &at(1))
}

fn clean() -> Value {
    Value::from_backtrace_or_bottom_at(None, &at(1))
}

fn text(v: &Value) -> String {
    match v.backtrace() {
        Some(b) => b.label().to_text(),
        None => "none".to_owned(),
    }
}

fn key(i: usize) -> PartKey {
    PartKey::Index(i)
}

#[test]
fn writes_are_read_back() {
    let mut v = Value::new(ValueForm::Slice, None, at(0), None, vec![]);
    v.set_at_key(ValueForm::Slice, Some(key(0)), tainted("a"), None, &at(2));
    assert_eq!(text(&v.get_at_key(Some(&key(0)), &at(3))), "{a}");
}

#[test]
fn writes_to_known_places_stay_apart() {
    let mut v = Value::new(ValueForm::Slice, None, at(0), None, vec![]);
    v.set_at_key(ValueForm::Slice, Some(key(0)), tainted("a"), None, &at(2));
    v.set_at_key(ValueForm::Slice, Some(key(1)), tainted("b"), None, &at(2));
    assert_eq!(text(&v.get_at_key(Some(&key(0)), &at(3))), "{a}");
    assert_eq!(text(&v.get_at_key(Some(&key(1)), &at(3))), "{b}");
    assert_eq!(text(&v.get_at_key(None, &at(3))), "{a, b}");
    assert_eq!(text(&v), "{a, b}");
}

#[test]
fn writes_to_unknown_places_reach_all_of_them() {
    let mut v = Value::new(ValueForm::Slice, None, at(0), None, vec![]);
    v.set_at_key(ValueForm::Slice, Some(key(0)), tainted("a"), None, &at(2));
    v.set_at_key(ValueForm::Slice, None, tainted("x"), None, &at(2));
    assert_eq!(text(&v.get_at_key(Some(&key(7)), &at(3))), "{x}");
}

#[test]
fn fields_are_told_apart_by_name() {
    let user = PartKey::Text("user".to_owned());
    let password = PartKey::Text("password".to_owned());
    let v = Value::compose(
        ValueForm::Struct,
        vec![(user.clone(), clean()), (password.clone(), tainted("secret"))],
        &vec![],
        at(0),
        None,
    );
    assert_eq!(text(&v.get_at_key(Some(&password), &at(2))), "{secret}");
    assert_eq!(text(&v.get_at_key(Some(&user), &at(2))), "none");
    assert_eq!(text(&v), "{secret}");
}

#[test]
fn downgraded_values_only_carry_their_taint() {
    let mut v = Value::compose(
        ValueForm::Struct,
        vec![(PartKey::Text("f".to_owned()), tainted("a"))],
        &vec![],
        at(0),
        None,
    );
    v.downgrade();
    assert!(matches!(v.form, ValueForm::Simple));
    assert!(v.parts.is_empty());
    assert_eq!(text(&v), "{a}");
}

#[test]
fn blurred_values_lose_track_of_places() {
    let mut v = Value::new(ValueForm::Slice, None, at(0), None, vec![]);
    v.set_at_key(ValueForm::Slice, Some(key(0)), tainted("a"), None, &at(2));
    v.blur(ValueForm::Slice, &at(3));
    assert_eq!(text(&v.get_at_key(Some(&key(9)), &at(4))), "{a}");
}

#[test]
fn merged_values_carry_what_either_does() {
    let both = tainted("a").merge_with(&tainted("b"), LabelBacktraceKind::Assignment, &at(2));
    assert_eq!(text(&both), "{a, b}");
    let one = tainted("a").merge_with(&clean(), LabelBacktraceKind::Assignment, &at(2));
    assert_eq!(text(&one), "{a}");
}

#[test]
fn labels_can_be_taken_away_from_values() {
    let mut v = tainted("a").merge_with(&tainted("b"), LabelBacktraceKind::Assignment, &at(2));
    v.subtract_label(&Label::from_tags(vec!["a"]));
    assert_eq!(text(&v), "{b}");
}

#[test]
fn nested_backtraces_add_to_values() {
    let mut v = tainted("a");
    v.nest_backtrace(LabelBacktraceKind::Branch, None, at(2), &vec![trace("b")]);
    assert_eq!(text(&v), "{a, b}");
}

#[test]
fn pairs_stand_for_one_or_two_values() {
    let pair = Value::pair(tainted("a"), tainted("b"), at(2));
    assert_eq!(text(&pair.clone().extract_collapsed_single()), "{a}");
    let two = pair.try_expand_to(2).unwrap();
    assert_eq!(two.len(), 2);
    assert_eq!(text(&two[0]), "{a}");
    assert_eq!(text(&two[1]), "{b}");
    assert!(pair.try_expand_to(3).is_none());
    assert!(tainted("a").try_expand_to(2).is_none());
}

#[test]
fn unknown_results_stand_for_as_many_values_as_are_expected() {
    let many = Value::new(ValueForm::Mobius, Some(trace("a")), at(0), None, vec![]);
    let three = many.try_expand_to(3).unwrap();
    assert_eq!(three.len(), 3);
    for v in &three {
        assert_eq!(text(v), "{a}");
    }
}

#[test]
fn forms_only_become_what_they_may_be() {
    assert!(ValueForm::Simple.can_become(&ValueForm::Channel));
    assert!(ValueForm::Channel.can_become(&ValueForm::Channel));
    assert!(!ValueForm::Slice.can_become(&ValueForm::Channel));
    assert!(ValueForm::Struct.is_composite());
    assert!(!ValueForm::Channel.is_composite());
}

#[test]
fn snapshots_of_values_look_at_labels_only() {
    let a = tainted("a");
    let same = Value::from_backtrace_or_bottom_at(Some(trace("a")), &at(9));
    assert!(a.snapshot_aware_eq(&same));
    assert!(!a.snapshot_aware_eq(&tainted("b")));
    assert!(!a.snapshot_aware_eq(&clean()));
}

#[test]
fn declared_types_can_be_set() {
    let mut v = clean();
    v.set_declared_type(Some(TypeInfo { name: "T".to_owned(), kind: TypeKind::Struct }));
    assert_eq!(v.declared_type.unwrap().name, "T");
}
