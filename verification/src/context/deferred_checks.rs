//! Checks that can only be made once a function is called.

use vstd::prelude::*;

use crate::functions::{FunctionModel, FunctionRef};
use crate::labels::backtraces::{realized, substitutions_of, trace_of, united, LabelBacktrace,
    LabelBacktraceKind, Substitution, Trace};
use crate::labels::tags::{SyntheticSlot, TagModel};
use crate::labels::laws::{law_subset_order, law_union_is_least_upper_bound, lemma_joined_nonempty};
use crate::labels::{is_canonical, label_views, within, Label};
use crate::locations::{Location, Pinned, PinnedModel};
use crate::ordered::same_text;
use crate::policy::{SinkDescriptor, SinkModel};
use crate::snapshots::SnapshotAware;

verus! {

/// A check whose outcome depends on where a function is called.
#[derive(Debug)]
#[allow(inconsistent_fields)]
pub enum DeferredEnforcementCheck {
    /// Whether a sink accepts a flow.
    Sink { sink: SinkDescriptor, found: LabelBacktrace, file: String },
    /// Whether a label is what it is asserted to be at each call.
    Assertion {
        expected_sequence: Vec<Label>,
        found: Option<LabelBacktrace>,
        file: String,
        location: Location,
    },
}

/// What a [`DeferredEnforcementCheck`] stands for.
#[verifier::ext_equal]
#[allow(inconsistent_fields)]
pub enum CheckModel {
    Sink { sink: SinkModel, flow: Trace, file: Seq<char> },
    Assertion {
        expected: Seq<Set<TagModel>>,
        found: Option<Trace>,
        file: Seq<char>,
        location: Location,
    },
}

impl View for DeferredEnforcementCheck {
    type V = CheckModel;

    open spec fn view(&self) -> CheckModel {
        match self {
            DeferredEnforcementCheck::Sink { sink, found, file } => CheckModel::Sink {
                sink: sink@,
                flow: found@,
                file: file@,
            },
            DeferredEnforcementCheck::Assertion { expected_sequence, found, file, location } =>
                CheckModel::Assertion {
                    expected: label_views(expected_sequence@),
                    found: trace_of(*found),
                    file: file@,
                    location: *location,
                },
        }
    }
}

/// What a list of checks stands for.
pub open spec fn checks_of(s: Seq<DeferredEnforcementCheck>) -> Seq<CheckModel> {
    s.map_values(|c: DeferredEnforcementCheck| c@)
}

/// Whether all labels of a list of checks are ones that the analysis can
/// produce.
pub open spec fn checks_wf(s: Seq<DeferredEnforcementCheck>) -> bool {
    forall|i: int| 0 <= i < s.len() ==> (#[trigger] s[i]).wf()
}

impl CheckModel {
    /// What the check is about.
    pub open spec fn flow(self) -> Option<Trace> {
        match self {
            CheckModel::Sink { flow, .. } => Some(flow),
            CheckModel::Assertion { found, .. } => found,
        }
    }

    /// Whether two checks stand at the same place and can be told apart by
    /// nothing but backtraces.
    pub open spec fn same_site(self, other: CheckModel) -> bool {
        match (self, other) {
            (
                CheckModel::Sink { sink, file, .. },
                CheckModel::Sink { sink: other_sink, file: other_file, .. },
            ) => sink == other_sink && file == other_file,
            (
                CheckModel::Assertion { expected, found, file, location },
                CheckModel::Assertion {
                    expected: other_expected,
                    found: other_found,
                    file: other_file,
                    location: other_location,
                },
            ) => {
                &&& expected == other_expected
                &&& file == other_file
                &&& location == other_location
                &&& found is Some == other_found is Some
                &&& found is Some ==> found->0.label == other_found->0.label
            },
            _ => false,
        }
    }

    /// A check that stands for itself and another one at the same place.
    pub open spec fn absorbing(self, other: CheckModel) -> CheckModel {
        match (self, other) {
            (
                CheckModel::Sink { sink, flow, file },
                CheckModel::Sink { flow: other_flow, .. },
            ) => if within(other_flow.label, flow.label) {
                self
            } else {
                CheckModel::Sink {
                    sink,
                    flow: united(
                        flow,
                        other_flow,
                        LabelBacktraceKind::EnforcementAggregation,
                        PinnedModel { file, inner: sink.location },
                    ),
                    file,
                }
            },
            _ => self,
        }
    }

    /// The check with the placeholders of a function substituted. None if it
    /// is about a flow of which nothing is left, as it would then pass.
    pub open spec fn realized(
        self,
        func: FunctionModel,
        subs: Seq<Substitution>,
        aggregates: bool,
    ) -> Option<CheckModel> {
        match self {
            CheckModel::Sink { sink, flow, file } => match realized(flow, func, subs, aggregates) {
                Some(flow) => Some(CheckModel::Sink { sink, flow, file }),
                None => None,
            },
            CheckModel::Assertion { expected, found, file, location } => Some(
                CheckModel::Assertion {
                    expected,
                    found: match found {
                        Some(t) => realized(t, func, subs, aggregates),
                        None => None,
                    },
                    file,
                    location,
                },
            ),
        }
    }
}

/// A list of checks with one more, which joins the first one at its place if
/// there is one.
pub open spec fn recorded(checks: Seq<CheckModel>, check: CheckModel) -> Seq<CheckModel>
    decreases checks.len(),
{
    if checks.len() == 0 {
        seq![check]
    } else if checks[0].same_site(check) {
        seq![checks[0].absorbing(check)] + checks.skip(1)
    } else {
        seq![checks[0]] + recorded(checks.skip(1), check)
    }
}

/// A copy of a list of labels.
pub fn copy_labels(v: &Vec<Label>) -> (r: Vec<Label>)
    ensures
        label_views(r@) == label_views(v@),
        (forall|i: int| 0 <= i < v@.len() ==> (#[trigger] v@[i]).wf()) ==> forall|i: int|
            0 <= i < r@.len() ==> (#[trigger] r@[i]).wf(),
{
    let mut r: Vec<Label> = Vec::new();
    let n: usize = v.len();
    let mut i: usize = 0;
    while i < n
        invariant
            i <= n,
            n == v@.len(),
            r@.len() == i,
            forall|k: int|
                0 <= k < i ==> (#[trigger] r@[k])@ == v@[k]@ && (v@[k].wf() ==> r@[k].wf()),
        decreases n - i,
    {
        r.push(v[i].clone());
        i = i + 1;
    }
    proof {
        assert(label_views(r@) =~= label_views(v@));
    }
    r
}

fn same_labels(a: &Vec<Label>, b: &Vec<Label>) -> (r: bool)
    ensures
        r == (label_views(a@) == label_views(b@)),
{
    let n: usize = a.len();
    proof {
        assert(label_views(a@).len() == a@.len());
        assert(label_views(b@).len() == b@.len());
    }
    if n != b.len() {
        return false;
    }
    let mut i: usize = 0;
    while i < n
        invariant
            i <= n,
            n == a@.len(),
            n == b@.len(),
            forall|k: int| 0 <= k < i ==> (#[trigger] a@[k])@ == b@[k]@,
        decreases n - i,
    {
        if !a[i].same_as(&b[i]) {
            proof {
                assert(label_views(a@)[i as int] != label_views(b@)[i as int]);
            }
            return false;
        }
        i = i + 1;
    }
    proof {
        assert(label_views(a@) =~= label_views(b@));
    }
    true
}

impl CheckModel {
    /// Whether the labels of the check are canonical.
    pub open spec fn is_sound(self) -> bool {
        match self {
            CheckModel::Sink { sink, .. } => is_canonical(sink.label),
            CheckModel::Assertion { expected, .. } => forall|i: int|
                0 <= i < expected.len() ==> is_canonical(#[trigger] expected[i]),
        }
    }
}

fn settle_labels(v: &Vec<Label>) -> (r: Option<Vec<Label>>)
    ensures
        r is Some <==> forall|i: int|
            0 <= i < v@.len() ==> is_canonical(#[trigger] label_views(v@)[i]),
        r matches Some(labels) ==> label_views(labels@) == label_views(v@) && forall|i: int|
            0 <= i < labels@.len() ==> (#[trigger] labels@[i]).wf(),
{
    let mut r: Vec<Label> = Vec::new();
    let n: usize = v.len();
    let mut i: usize = 0;
    while i < n
        invariant
            i <= n,
            n == v@.len(),
            r@.len() == i,
            forall|k: int| 0 <= k < i ==> is_canonical(#[trigger] label_views(v@)[k]),
            forall|k: int| 0 <= k < i ==> (#[trigger] r@[k]).wf() && r@[k]@ == v@[k]@,
        decreases n - i,
    {
        proof {
            assert(label_views(v@)[i as int] == v@[i as int]@);
        }
        match v[i].settled() {
            Some(label) => {
                r.push(label);
            },
            None => {
                return None;
            },
        }
        i = i + 1;
    }
    proof {
        assert(label_views(r@) =~= label_views(v@));
    }
    Some(r)
}

/// Copies of checks that are ones that the analysis can produce, if there are.
pub fn settle_checks(checks: &Vec<DeferredEnforcementCheck>) -> (r: Option<
    Vec<DeferredEnforcementCheck>,
>)
    ensures
        r is Some <==> forall|i: int|
            0 <= i < checks@.len() ==> (#[trigger] checks_of(checks@)[i]).is_sound(),
        r matches Some(v) ==> checks_of(v@) == checks_of(checks@) && checks_wf(v@),
{
    let mut r: Vec<DeferredEnforcementCheck> = Vec::new();
    let n: usize = checks.len();
    let mut i: usize = 0;
    while i < n
        invariant
            i <= n,
            n == checks@.len(),
            r@.len() == i,
            forall|k: int| 0 <= k < i ==> (#[trigger] checks_of(checks@)[k]).is_sound(),
            forall|k: int| 0 <= k < i ==> (#[trigger] r@[k]).wf() && r@[k]@ == checks@[k]@,
        decreases n - i,
    {
        proof {
            assert(checks_of(checks@)[i as int] == checks@[i as int]@);
        }
        let copy = match &checks[i] {
            DeferredEnforcementCheck::Sink { sink, found, file } => match sink.label.settled() {
                Some(label) => DeferredEnforcementCheck::Sink {
                    sink: SinkDescriptor {
                        kind: sink.kind,
                        allow: sink.allow,
                        label,
                        location: sink.location,
                    },
                    found: found.clone(),
                    file: file.clone(),
                },
                None => {
                    return None;
                },
            },
            DeferredEnforcementCheck::Assertion { expected_sequence, found, file, location } => {
                match settle_labels(expected_sequence) {
                    Some(labels) => DeferredEnforcementCheck::Assertion {
                        expected_sequence: labels,
                        found: crate::context::branches::copy_trace(found),
                        file: file.clone(),
                        location: *location,
                    },
                    None => {
                        proof {
                            let ls = label_views(expected_sequence@);
                            let k = choose|k: int|
                                0 <= k < expected_sequence@.len() && !is_canonical(
                                    #[trigger] ls[k],
                                );
                            assert(checks_of(checks@)[i as int] == checks@[i as int]@);
                            assert(!checks_of(checks@)[i as int].is_sound()) by {
                                assert(checks@[i as int]@ matches CheckModel::Assertion {
                                    expected,
                                    ..
                                } && expected == ls);
                                assert(!is_canonical(ls[k]));
                            }
                        }
                        return None;
                    },
                }
            },
        };
        proof {
            assert(copy@ =~= checks@[i as int]@);
        }
        r.push(copy);
        i = i + 1;
    }
    proof {
        assert(checks_of(r@) =~= checks_of(checks@));
    }
    Some(r)
}

impl DeferredEnforcementCheck {
    /// Whether the labels of the check are ones that the analysis can produce.
    pub open spec fn wf(&self) -> bool {
        match self {
            DeferredEnforcementCheck::Sink { sink, .. } => sink.label.wf(),
            DeferredEnforcementCheck::Assertion { expected_sequence, .. } => forall|i: int|
                0 <= i < expected_sequence@.len() ==> (#[trigger] expected_sequence@[i]).wf(),
        }
    }

    /// Merges another observation of the same check into this one. Returns
    /// whether it was one.
    pub fn merge_if_same_site(&mut self, other: &Self) -> (r: bool)
        ensures
            r == old(self)@.same_site(other@),
            final(self)@ == if r {
                old(self)@.absorbing(other@)
            } else {
                old(self)@
            },
            old(self).wf() ==> final(self).wf(),
    {
        match (&*self, other) {
            (
                DeferredEnforcementCheck::Sink { sink, found, file },
                DeferredEnforcementCheck::Sink {
                    sink: other_sink,
                    found: other_found,
                    file: other_file,
                },
            ) => {
                if !sink.same_as(other_sink) || !same_text(file.as_str(), other_file.as_str()) {
                    return false;
                }
                if other_found.label().is_subset_of(found.label()) {
                    return true;
                }
                let merged = DeferredEnforcementCheck::Sink {
                    sink: sink.clone(),
                    found: found.union(
                        other_found,
                        LabelBacktraceKind::EnforcementAggregation,
                        Pinned::new(file.as_str(), sink.location),
                    ),
                    file: file.clone(),
                };
                *self = merged;
                true
            },
            (
                DeferredEnforcementCheck::Assertion { expected_sequence, found, file, location },
                DeferredEnforcementCheck::Assertion {
                    expected_sequence: other_expected,
                    found: other_found,
                    file: other_file,
                    location: other_location,
                },
            ) => {
                let same_label = match (found, other_found) {
                    (Some(a), Some(b)) => a.label().same_as(b.label()),
                    (None, None) => true,
                    _ => false,
                };
                same_label && same_labels(expected_sequence, other_expected) && same_text(
                    file.as_str(),
                    other_file.as_str(),
                ) && *location == *other_location
            },
            _ => false,
        }
    }

    /// The check with the placeholders of a function substituted; none if it
    /// no longer makes sense.
    pub fn realize(
        &self,
        from_func: &FunctionRef,
        substitutions: &Vec<(SyntheticSlot, Option<&LabelBacktrace>)>,
        for_enforcement: bool,
    ) -> (r: Option<Self>)
        ensures
            r is Some == self@.realized(
                from_func@,
                substitutions_of(substitutions@),
                for_enforcement,
            ) is Some,
            r matches Some(c) ==> Some(c@) == self@.realized(
                from_func@,
                substitutions_of(substitutions@),
                for_enforcement,
            ) && (self.wf() ==> c.wf()),
    {
        match self {
            DeferredEnforcementCheck::Sink { sink, found, file } => {
                match realize_found(found, from_func, substitutions, for_enforcement) {
                    Some(realized) => Some(
                        DeferredEnforcementCheck::Sink {
                            sink: sink.clone(),
                            found: realized,
                            file: file.clone(),
                        },
                    ),
                    None => None,
                }
            },
            DeferredEnforcementCheck::Assertion { expected_sequence, found, file, location } => {
                let realized = match found {
                    Some(b) => realize_found(b, from_func, substitutions, for_enforcement),
                    None => None,
                };
                Some(
                    DeferredEnforcementCheck::Assertion {
                        expected_sequence: copy_labels(expected_sequence),
                        found: realized,
                        file: file.clone(),
                        location: *location,
                    },
                )
            },
        }
    }
}

fn realize_found(
    found: &LabelBacktrace,
    from_func: &FunctionRef,
    substitutions: &Vec<(SyntheticSlot, Option<&LabelBacktrace>)>,
    for_enforcement: bool,
) -> (r: Option<LabelBacktrace>)
    ensures
        trace_of(r) == realized(
            found@,
            from_func@,
            substitutions_of(substitutions@),
            for_enforcement,
        ),
{
    if for_enforcement {
        found.realize_all_for_enforcement(from_func, substitutions)
    } else {
        found.realize_all(from_func, substitutions)
    }
}

impl Clone for DeferredEnforcementCheck {
    fn clone(&self) -> (r: Self)
        ensures
            r@ == self@,
            self.wf() ==> r.wf(),
    {
        match self {
            DeferredEnforcementCheck::Sink { sink, found, file } => DeferredEnforcementCheck::Sink {
                sink: sink.clone(),
                found: found.clone(),
                file: file.clone(),
            },
            DeferredEnforcementCheck::Assertion { expected_sequence, found, file, location } =>
                DeferredEnforcementCheck::Assertion {
                    expected_sequence: copy_labels(expected_sequence),
                    found: match found {
                        Some(b) => Some(b.clone()),
                        None => None,
                    },
                    file: file.clone(),
                    location: *location,
                },
        }
    }
}

/// Whether two checks differ in nothing but backtraces, and these not in their
/// labels.
pub open spec fn checks_alike(a: CheckModel, b: CheckModel) -> bool {
    match (a, b) {
        (
            CheckModel::Sink { sink, flow, file },
            CheckModel::Sink { sink: other_sink, flow: other_flow, file: other_file },
        ) => sink == other_sink && flow.label == other_flow.label && file == other_file,
        (CheckModel::Assertion { .. }, CheckModel::Assertion { .. }) => a.same_site(b),
        _ => false,
    }
}

impl SnapshotAware for DeferredEnforcementCheck {
    open spec fn alike(&self, other: &Self) -> bool {
        checks_alike(self@, other@)
    }

    proof fn alike_reflexive(a: &Self) {
    }

    proof fn alike_symmetric(a: &Self, b: &Self) {
    }

    proof fn alike_transitive(a: &Self, b: &Self, c: &Self) {
    }

    fn snapshot_aware_eq(&self, other: &Self) -> (r: bool) {
        match (self, other) {
            (
                DeferredEnforcementCheck::Sink { sink, found, file },
                DeferredEnforcementCheck::Sink {
                    sink: other_sink,
                    found: other_found,
                    file: other_file,
                },
            ) => sink.snapshot_aware_eq(other_sink) && found.snapshot_aware_eq(other_found)
                && same_text(file.as_str(), other_file.as_str()),
            (
                DeferredEnforcementCheck::Assertion { expected_sequence, found, file, location },
                DeferredEnforcementCheck::Assertion {
                    expected_sequence: other_expected,
                    found: other_found,
                    file: other_file,
                    location: other_location,
                },
            ) => same_labels(expected_sequence, other_expected) && found.snapshot_aware_eq(
                other_found,
            ) && same_text(file.as_str(), other_file.as_str()) && *location == *other_location,
            _ => false,
        }
    }
}

/// Adds a check to a list that holds at most one check for each place.
pub fn record_check(checks: &mut Vec<DeferredEnforcementCheck>, check: DeferredEnforcementCheck)
    ensures
        checks_of(final(checks)@) == recorded(checks_of(old(checks)@), check@),
        checks_wf(old(checks)@) && check.wf() ==> checks_wf(final(checks)@),
{
    let n: usize = checks.len();
    let mut i: usize = 0;
    let ghost all = checks_of(checks@);
    proof {
        assert(all.take(0) + recorded(all.skip(0), check@) =~= recorded(all, check@)) by {
            assert(all.skip(0) =~= all);
        }
    }
    while i < n
        invariant
            i <= n,
            n == checks@.len(),
            all == checks_of(checks@),
            all == checks_of(old(checks)@),
            checks_wf(old(checks)@) ==> checks_wf(checks@),
            recorded(all, check@) == all.take(i as int) + recorded(all.skip(i as int), check@),
        decreases n - i,
    {
        let mut candidate = checks.remove(i);
        let merged = candidate.merge_if_same_site(&check);
        let ghost now = candidate@;
        let ghost at = all[i as int];
        let ghost rest = all.skip(i as int);
        checks.insert(i, candidate);
        proof {
            assert(rest[0] == at);
            assert(rest.skip(1) =~= all.skip(i + 1));
            assert(checks_of(checks@) =~= all.update(i as int, now));
        }
        if merged {
            proof {
                assert(checks_of(checks@) =~= all.take(i as int) + (seq![now] + all.skip(i + 1)));
            }
            return;
        }
        proof {
            assert(all.update(i as int, at) =~= all);
            assert(all.take(i as int) + (seq![at] + recorded(all.skip(i + 1), check@)) =~= all.take(
                i + 1,
            ) + recorded(all.skip(i + 1), check@));
        }
        i = i + 1;
    }
    let ghost c = check@;
    checks.push(check);
    proof {
        assert(all.skip(n as int).len() == 0);
        assert(all.take(n as int) =~= all);
        assert(checks_of(checks@) =~= all.push(c));
        assert(all + seq![c] =~= all.push(c));
    }
}

/// Merging an observation of a check into another one at the same place loses
/// no tag of either: a sink then sees both, and an assertion sees what it saw.
pub proof fn law_absorbing_keeps_labels(a: CheckModel, b: CheckModel)
    requires
        a.same_site(b),
        a.flow() is Some ==> a.flow()->0.label != Set::<TagModel>::empty(),
    ensures
        a.absorbing(b).same_site(a),
        a.flow() is Some ==> a.absorbing(b).flow() is Some && within(
            a.flow()->0.label,
            a.absorbing(b).flow()->0.label,
        ) && within(b.flow()->0.label, a.absorbing(b).flow()->0.label),
{
    if a.flow() is Some {
        let x = a.flow()->0.label;
        let y = b.flow()->0.label;
        law_subset_order(x, x, x);
        law_union_is_least_upper_bound(x, y, x);
        lemma_joined_nonempty(x, y);
    }
}

} // verus!
