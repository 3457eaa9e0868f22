//! What a call returns.

use vstd::prelude::*;

use crate::functions::{FunctionModel, FunctionRef};
use crate::labels::backtraces::{folded, listed, root_trace, substitutions_of, trace_of, traces_of,
    LabelBacktrace, LabelBacktraceKind, Trace};
use crate::labels::tags::{LabelTag, SyntheticSlot, TagModel};
use crate::labels::{summed, Label};
use crate::locations::{Location, Pinned, PinnedModel};
use crate::ordered::Ordered;
use crate::policy::blanket_directives::{directives_of, BlanketDirective, BlanketDirectiveKind,
    DirectiveModel};
use crate::policy::targets::{known_texts, predicate_holds, SimpleConstValue};
use crate::taint::funcs::call_checks::flows_of;
use crate::taint::funcs::{signature_of, Signature, SignatureModel};
use crate::values::{relieved, type_of, types_of, value_realized, values_of, FormModel, KeyModel,
    PartKey, TypeInfo, TypeKind, TypeModel, Value, ValueForm, ValueModel};

verus! {

/// What is carried by some of several flows.
pub open spec fn carrying(flows: Seq<Option<Trace>>) -> Seq<Trace>
    decreases flows.len(),
{
    if flows.len() == 0 {
        Seq::<Trace>::empty()
    } else {
        carrying(flows.drop_last()) + listed(flows.last())
    }
}

/// The backtraces among several optional ones, in order.
pub fn carrying_refs<'a>(flows: &'a Vec<Option<LabelBacktrace>>, from: usize) -> (r: Vec<
    &'a LabelBacktrace,
>)
    requires
        from <= flows@.len(),
    ensures
        crate::labels::backtraces::traces_of_refs(r@) == carrying(
            flows_of(flows@).skip(from as int),
        ),
{
    let mut r: Vec<&'a LabelBacktrace> = Vec::new();
    let ghost all = flows_of(flows@).skip(from as int);
    let n: usize = flows.len();
    let mut i: usize = from;
    proof {
        assert(crate::labels::backtraces::traces_of_refs(r@) =~= carrying(all.take(0)));
    }
    while i < n
        invariant
            from <= i <= n,
            n == flows@.len(),
            all == flows_of(flows@).skip(from as int),
            crate::labels::backtraces::traces_of_refs(r@) == carrying(all.take(i - from)),
        decreases n - i,
    {
        let ghost before = crate::labels::backtraces::traces_of_refs(r@);
        proof {
            assert(all.take(i + 1 - from).drop_last() =~= all.take(i - from));
            assert(all.take(i + 1 - from).last() == trace_of(flows@[i as int]));
        }
        match &flows[i] {
            Some(b) => {
                r.push(b);
                proof {
                    assert(crate::labels::backtraces::traces_of_refs(r@) =~= before + seq![b@]);
                }
            },
            None => {
                proof {
                    assert(before + Seq::<Trace>::empty() =~= before);
                }
            },
        }
        i = i + 1;
    }
    proof {
        assert(all.take(n - from) =~= all);
    }
    r
}

/// A value that stands for as many as are expected, each carrying the same.
pub open spec fn mobius(inner: ValueModel, location: PinnedModel<Location>) -> ValueModel {
    ValueModel {
        key: KeyModel::Whole,
        form: FormModel::Mobius,
        own: None,
        location,
        declared_type: None,
        parts: seq![ValueModel { key: KeyModel::Others, ..inner }],
    }
}

/// Whether a type hides what a value is made of.
pub open spec fn is_interface(t: TypeModel) -> bool {
    t.kind is Interface
}

/// A result with the type that it is declared to have. A type that hides what
/// a value is made of makes it forgotten.
pub open spec fn with_result_type(v: ValueModel, t: Option<TypeModel>) -> ValueModel {
    match t {
        Some(x) => ValueModel {
            declared_type: Some(x),
            ..if is_interface(x) {
                v.downgraded()
            } else {
                v
            }
        },
        None => v,
    }
}

/// Results with the types that they are declared to have.
pub open spec fn with_result_types(
    results: Seq<ValueModel>,
    types: Seq<Option<TypeModel>>,
) -> Seq<ValueModel> {
    Seq::new(
        results.len(),
        |i: int|
            if i < types.len() {
                with_result_type(results[i], types[i])
            } else {
                results[i]
            },
    )
}

/// The results of a function of which no implementation is known: each carries
/// all that the arguments and the function carry.
pub open spec fn blackbox_results(
    own: Option<Trace>,
    signature: Option<SignatureModel>,
    types: Seq<Option<TypeModel>>,
    flows: Seq<Option<Trace>>,
    location: PinnedModel<Location>,
) -> Seq<ValueModel> {
    let bt = folded(carrying(flows) + listed(own), LabelBacktraceKind::BlackboxCall, None, location);
    let inner = ValueModel::simple(bt, location);
    with_result_types(
        match signature {
            Some(s) => Seq::new(s.result_count, |i: int| inner),
            None => seq![mobius(inner, location)],
        },
        types,
    )
}

/// Whether a directive of a kind concerns a call with such arguments.
pub open spec fn concerns(
    d: DirectiveModel,
    kind: BlanketDirectiveKind,
    known: Seq<Option<Seq<char>>>,
) -> bool {
    &&& d.kind == kind
    &&& d.label != Set::<TagModel>::empty()
    &&& d.predicate matches Some(p) ==> predicate_holds(p, known)
}

/// Whether a directive concerns the result at a position.
pub open spec fn selects(d: DirectiveModel, index: int) -> bool {
    d.results.len() == 0 || d.results.contains(index as usize)
}

/// The labels of the directives up to a position that concern a result.
pub open spec fn labels_for(
    ds: Seq<DirectiveModel>,
    kind: BlanketDirectiveKind,
    known: Seq<Option<Seq<char>>>,
    index: int,
    n: int,
) -> Seq<Set<TagModel>>
    decreases n,
{
    if n <= 0 {
        Seq::<Set<TagModel>>::empty()
    } else {
        let before = labels_for(ds, kind, known, index, n - 1);
        if concerns(ds[n - 1], kind, known) && selects(ds[n - 1], index) {
            before.push(ds[n - 1].label)
        } else {
            before
        }
    }
}

/// A value with a label from a source at the positions up to a count.
pub open spec fn sourced_at(
    v: ValueModel,
    positions: Seq<usize>,
    root: Trace,
    location: PinnedModel<Location>,
    n: int,
) -> ValueModel
    decreases n,
{
    if n <= 0 {
        v
    } else {
        sourced_at(v, positions, root, location, n - 1).nesting_at(
            positions[n - 1],
            LabelBacktraceKind::Expression,
            location,
            seq![root],
        )
    }
}

/// A value that stands for several, with the labels from the sources among the
/// directives up to a position.
pub open spec fn sourced_expandable(
    v: ValueModel,
    ds: Seq<DirectiveModel>,
    known: Seq<Option<Seq<char>>>,
    location: PinnedModel<Location>,
    n: int,
) -> ValueModel
    decreases n,
{
    if n <= 0 {
        v
    } else {
        let before = sourced_expandable(v, ds, known, location, n - 1);
        let d = ds[n - 1];
        if concerns(d, BlanketDirectiveKind::Source, known) {
            let root = root_trace(
                LabelBacktraceKind::BlanketSource,
                d.label,
                None,
                location,
            )->0;
            if d.results.len() == 0 {
                before.nesting(LabelBacktraceKind::Expression, None, location, seq![root])
            } else {
                sourced_at(before, d.results, root, location, d.results.len() as int)
            }
        } else {
            before
        }
    }
}

/// A single result with the labels from the sources that concern it.
pub open spec fn sourced_result(
    v: ValueModel,
    ds: Seq<DirectiveModel>,
    known: Seq<Option<Seq<char>>>,
    location: PinnedModel<Location>,
    index: int,
) -> ValueModel {
    let label = summed(
        labels_for(ds, BlanketDirectiveKind::Source, known, index, ds.len() as int),
    );
    match root_trace(LabelBacktraceKind::BlanketSource, label, None, location) {
        Some(root) => v.nesting(LabelBacktraceKind::Expression, None, location, seq![root]),
        None => v,
    }
}

/// Results with the labels from the sources that the policy makes of a
/// function.
pub open spec fn sourced(
    results: Seq<ValueModel>,
    ds: Seq<DirectiveModel>,
    known: Seq<Option<Seq<char>>>,
    location: PinnedModel<Location>,
) -> Seq<ValueModel> {
    if results.len() == 1 && results[0].is_expandable() {
        seq![sourced_expandable(results[0], ds, known, location, ds.len() as int)]
    } else {
        Seq::new(results.len(), |i: int| sourced_result(results[i], ds, known, location, i))
    }
}

/// A value without the tags of a label at the positions up to a count.
pub open spec fn revoked_at(
    v: ValueModel,
    positions: Seq<usize>,
    label: Set<TagModel>,
    n: int,
) -> ValueModel
    decreases n,
{
    if n <= 0 {
        v
    } else {
        revoked_at(v, positions, label, n - 1).relieved_at(positions[n - 1], label)
    }
}

/// A value that stands for several, without the labels that the directives up
/// to a position revoke.
pub open spec fn revoked_expandable(
    v: ValueModel,
    ds: Seq<DirectiveModel>,
    known: Seq<Option<Seq<char>>>,
    n: int,
) -> ValueModel
    decreases n,
{
    if n <= 0 {
        v
    } else {
        let before = revoked_expandable(v, ds, known, n - 1);
        let d = ds[n - 1];
        if concerns(d, BlanketDirectiveKind::Revocation, known) {
            if d.results.len() == 0 {
                relieved(before, d.label)
            } else {
                revoked_at(before, d.results, d.label, d.results.len() as int)
            }
        } else {
            before
        }
    }
}

/// Results without the labels that the policy revokes from those of a function.
pub open spec fn revoked(
    results: Seq<ValueModel>,
    ds: Seq<DirectiveModel>,
    known: Seq<Option<Seq<char>>>,
) -> Seq<ValueModel> {
    if results.len() == 1 && results[0].is_expandable() {
        seq![revoked_expandable(results[0], ds, known, ds.len() as int)]
    } else {
        Seq::new(
            results.len(),
            |i: int|
                relieved(
                    results[i],
                    summed(
                        labels_for(
                            ds,
                            BlanketDirectiveKind::Revocation,
                            known,
                            i,
                            ds.len() as int,
                        ),
                    ),
                ),
        )
    }
}

/// Results that depend on what the body of a loop feeds back to the iterator
/// that drives it.
pub open spec fn fed_back(
    results: Seq<ValueModel>,
    owner: Option<FunctionModel>,
    location: PinnedModel<Location>,
) -> Seq<ValueModel> {
    match owner {
        Some(func) => {
            let tag = TagModel::Synthetic { func, slot: SyntheticSlot::YieldFeedback };
            let root = root_trace(
                LabelBacktraceKind::FunctionParameter,
                set![tag],
                None,
                location,
            )->0;
            Seq::new(
                results.len(),
                |i: int|
                    results[i].nesting(
                        LabelBacktraceKind::Expression,
                        None,
                        location,
                        seq![root],
                    ),
            )
        },
        None => results,
    }
}

fn single(b: LabelBacktrace) -> (r: Vec<LabelBacktrace>)
    ensures
        traces_of(r@) == seq![b@],
{
    let ghost t = b@;
    let mut r: Vec<LabelBacktrace> = Vec::new();
    r.push(b);
    proof {
        assert(traces_of(r@) =~= seq![t]);
    }
    r
}

/// Gives results the types that they are declared to have.
pub fn tag_results_with_declared_types(
    results: &mut Vec<Value>,
    declared_result_types: &Vec<Option<TypeInfo>>,
)
    ensures
        values_of(final(results)@) == with_result_types(
            values_of(old(results)@),
            types_of(declared_result_types@),
        ),
        final(results)@.len() == old(results)@.len(),
{
    let ghost all = values_of(results@);
    let ghost types = types_of(declared_result_types@);
    let n: usize = results.len();
    let m: usize = declared_result_types.len();
    let mut i: usize = 0;
    while i < n && i < m
        invariant
            i <= n,
            i <= m,
            n == results@.len(),
            n == all.len(),
            m == declared_result_types@.len(),
            types == types_of(declared_result_types@),
            forall|k: int|
                0 <= k < i ==> (#[trigger] results@[k])@ == with_result_type(all[k], types[k]),
            forall|k: int| i <= k < n ==> (#[trigger] results@[k])@ == all[k],
        decreases n - i,
    {
        proof {
            assert(types[i as int] == type_of(declared_result_types@[i as int]));
        }
        if let Some(t) = &declared_result_types[i] {
            let mut value = results.remove(i);
            if let TypeKind::Interface = t.kind {
                value.downgrade();
            }
            value.set_declared_type(Some(t.clone()));
            results.insert(i, value);
        }
        i = i + 1;
    }
    proof {
        assert(values_of(results@) =~= with_result_types(all, types));
    }
}

/// The results of a function of which no implementation is known.
pub fn visit_blackbox_call(
    own: &Option<LabelBacktrace>,
    signature: &Option<Signature>,
    declared_result_types: &Vec<Option<TypeInfo>>,
    backtraces: &Vec<Option<LabelBacktrace>>,
    call_location: &Pinned<Location>,
) -> (r: Vec<Value>)
    ensures
        values_of(r@) == blackbox_results(
            trace_of(*own),
            signature_of(*signature),
            types_of(declared_result_types@),
            flows_of(backtraces@),
            call_location@,
        ),
{
    let mut children = carrying_refs(backtraces, 0);
    let ghost flows = flows_of(backtraces@);
    let ghost before = crate::labels::backtraces::traces_of_refs(children@);
    proof {
        assert(flows.skip(0) =~= flows);
    }
    match own {
        Some(b) => {
            children.push(b);
            proof {
                assert(crate::labels::backtraces::traces_of_refs(children@) =~= before + seq![b@]);
            }
        },
        None => {
            proof {
                assert(before + Seq::<Trace>::empty() =~= before);
            }
        },
    }
    let bt = LabelBacktrace::fold(
        &children,
        LabelBacktraceKind::BlackboxCall,
        None,
        call_location.duplicate(),
    );
    let inner = Value::from_backtrace_or_bottom_at(bt, call_location);
    let ghost im = inner@;
    let mut results: Vec<Value> = Vec::new();
    match signature {
        Some(s) => {
            let n: usize = s.result_count;
            let mut i: usize = 0;
            while i < n
                invariant
                    i <= n,
                    inner@ == im,
                    results@.len() == i,
                    forall|k: int| 0 <= k < i ==> (#[trigger] results@[k])@ == im,
                decreases n - i,
            {
                results.push(inner.clone());
                i = i + 1;
            }
            proof {
                assert(values_of(results@) =~= Seq::new(
                    s@.result_count,
                    |i: int| im,
                ));
            }
        },
        None => {
            let mut part = inner;
            proof {
                part.lemma_parts();
            }
            part.key = PartKey::Others;
            proof {
                part.lemma_parts();
            }
            let ghost pm = part@;
            let mut parts: Vec<Value> = Vec::new();
            parts.push(part);
            proof {
                assert(values_of(parts@) =~= seq![pm]);
            }
            let value = Value::new(
                ValueForm::Mobius,
                None,
                call_location.duplicate(),
                None,
                parts,
            );
            let ghost vm = value@;
            results.push(value);
            proof {
                assert(values_of(results@) =~= seq![mobius(im, call_location@)]);
            }
        },
    }
    tag_results_with_declared_types(&mut results, declared_result_types);
    results
}

/// Makes results depend on what the body of a loop feeds back.
pub fn add_yield_feedback(
    results: &mut Vec<Value>,
    owner: Option<&FunctionRef>,
    location: &Pinned<Location>,
)
    ensures
        values_of(final(results)@) == fed_back(
            values_of(old(results)@),
            match owner {
                Some(f) => Some(f@),
                None => None,
            },
            location@,
        ),
        final(results)@.len() == old(results)@.len(),
{
    let owner = match owner {
        Some(f) => f,
        None => {
            return;
        },
    };
    let ghost all = values_of(results@);
    let ghost tag = TagModel::Synthetic { func: owner@, slot: SyntheticSlot::YieldFeedback };
    let label = Label::from_single(
        LabelTag::Synthetic {
            func: owner.duplicate(),
            slot: SyntheticSlot::YieldFeedback,
            identifier: None,
        },
    );
    proof {
        assert(label@ =~= set![tag]);
        assert(set![tag].contains(tag));
    }
    let root = LabelBacktrace::new_root(
        LabelBacktraceKind::FunctionParameter,
        label,
        None,
        location.duplicate(),
    );
    let feedback = match root {
        Some(b) => single(b),
        None => {
            proof {
                assert(false);
            }
            vstd::pervasive::unreached()
        },
    };
    let ghost rt = traces_of(feedback@)[0];
    let n: usize = results.len();
    let mut i: usize = 0;
    while i < n
        invariant
            i <= n,
            n == results@.len(),
            n == all.len(),
            traces_of(feedback@) == seq![rt],
            forall|k: int|
                0 <= k < i ==> (#[trigger] results@[k])@ == all[k].nesting(
                    LabelBacktraceKind::Expression,
                    None,
                    location@,
                    seq![rt],
                ),
            forall|k: int| i <= k < n ==> (#[trigger] results@[k])@ == all[k],
        decreases n - i,
    {
        let mut value = results.remove(i);
        value.nest_backtrace(
            LabelBacktraceKind::Expression,
            None,
            location.duplicate(),
            &feedback,
        );
        results.insert(i, value);
        i = i + 1;
    }
    proof {
        assert(values_of(results@) =~= fed_back(all, Some(owner@), location@));
    }
}

fn is_concerned(
    d: &BlanketDirective,
    kind: BlanketDirectiveKind,
    arg_consts: &Vec<Option<SimpleConstValue>>,
) -> (r: bool)
    ensures
        r == concerns(d@, kind, known_texts(arg_consts@)),
{
    if d.kind() != kind || d.label().is_bottom() {
        return false;
    }
    match d.arg_predicate() {
        Some(p) => p.may_hold(arg_consts),
        None => true,
    }
}

fn label_for_result(
    directives: &Vec<BlanketDirective>,
    kind: BlanketDirectiveKind,
    arg_consts: &Vec<Option<SimpleConstValue>>,
    index: usize,
) -> (r: Label)
    ensures
        r.wf(),
        r@ == summed(
            labels_for(
                directives_of(directives@),
                kind,
                known_texts(arg_consts@),
                index as int,
                directives_of(directives@).len() as int,
            ),
        ),
{
    let ghost known = known_texts(arg_consts@);
    let mut sum = Label::Bottom;
    let n: usize = directives.len();
    let mut i: usize = 0;
    while i < n
        invariant
            i <= n,
            n == directives@.len(),
            known == known_texts(arg_consts@),
            sum.wf(),
            sum@ == summed(labels_for(directives_of(directives@), kind, known, index as int, i as int)),
        decreases n - i,
    {
        let d = &directives[i];
        if is_concerned(d, kind, arg_consts) {
            let selector = d.result_selector();
            let m: usize = selector.len();
            proof {
                assert(selector@.contains(index) == selector.listing().contains(index));
            }
            if m == 0 || selector.contains(&index) {
                proof {
                    let before = labels_for(directives_of(directives@), kind, known, index as int, i as int);
                    assert(before.push(d@.label).drop_last() =~= before);
                }
                sum = sum.union(d.label());
            }
        }
        i = i + 1;
    }
    sum
}

fn source_expandable(
    value: Value,
    directives: &Vec<BlanketDirective>,
    arg_consts: &Vec<Option<SimpleConstValue>>,
    call_location: &Pinned<Location>,
) -> (r: Value)
    ensures
        r@ == sourced_expandable(
            value@,
            directives_of(directives@),
            known_texts(arg_consts@),
            call_location@,
            directives_of(directives@).len() as int,
        ),
{
    let ghost known = known_texts(arg_consts@);
    let ghost start = value@;
    let mut value = value;
    let n: usize = directives.len();
    let mut i: usize = 0;
    while i < n
        invariant
            i <= n,
            n == directives@.len(),
            known == known_texts(arg_consts@),
            value@ == sourced_expandable(start, directives_of(directives@), known, call_location@, i as int),
        decreases n - i,
    {
        let d = &directives[i];
        if is_concerned(d, BlanketDirectiveKind::Source, arg_consts) {
            let root = LabelBacktrace::new_root(
                LabelBacktraceKind::BlanketSource,
                d.label().clone(),
                None,
                call_location.duplicate(),
            );
            let more = match root {
                Some(b) => single(b),
                None => {
                    proof {
                        assert(false);
                    }
                    vstd::pervasive::unreached()
                },
            };
            let ghost rt = traces_of(more@)[0];
            let selector = d.result_selector();
            let m: usize = selector.len();
            if m == 0 {
                value.nest_backtrace(
                    LabelBacktraceKind::Expression,
                    None,
                    call_location.duplicate(),
                    &more,
                );
            } else {
                let ghost before = value@;
                let mut j: usize = 0;
                while j < m
                    invariant
                        j <= m,
                        m == selector.listing().len(),
                        selector.listing() == d@.results,
                        traces_of(more@) == seq![rt],
                        value@ == sourced_at(before, d@.results, rt, call_location@, j as int),
                    decreases m - j,
                {
                    value.nest_backtrace_at(
                        *selector.at(j),
                        LabelBacktraceKind::Expression,
                        call_location.duplicate(),
                        &more,
                    );
                    j = j + 1;
                }
            }
        }
        i = i + 1;
    }
    value
}

/// Adds to results the labels from the sources that the policy makes of a
/// function.
pub fn apply_call_blanket_sources(
    results: &mut Vec<Value>,
    directives: &Vec<BlanketDirective>,
    arg_consts: &Vec<Option<SimpleConstValue>>,
    call_location: &Pinned<Location>,
)
    ensures
        values_of(final(results)@) == sourced(
            values_of(old(results)@),
            directives_of(directives@),
            known_texts(arg_consts@),
            call_location@,
        ),
        final(results)@.len() == old(results)@.len(),
{
    let ghost known = known_texts(arg_consts@);
    let ghost all = values_of(results@);
    let n: usize = results.len();
    if n == 1 && results[0].supports_overriding_expand_indices() {
        let value = results.remove(0);
        let sourced_value = source_expandable(value, directives, arg_consts, call_location);
        let ghost m = sourced_value@;
        results.push(sourced_value);
        proof {
            assert(all.len() == 1);
            assert(values_of(results@) =~= seq![m]);
        }
        return;
    }
    let mut i: usize = 0;
    while i < n
        invariant
            i <= n,
            n == results@.len(),
            n == all.len(),
            known == known_texts(arg_consts@),
            forall|k: int|
                0 <= k < i ==> (#[trigger] results@[k])@ == sourced_result(
                    all[k],
                    directives_of(directives@),
                    known,
                    call_location@,
                    k,
                ),
            forall|k: int| i <= k < n ==> (#[trigger] results@[k])@ == all[k],
        decreases n - i,
    {
        let label = label_for_result(directives, BlanketDirectiveKind::Source, arg_consts, i);
        let root = LabelBacktrace::new_root(
            LabelBacktraceKind::BlanketSource,
            label,
            None,
            call_location.duplicate(),
        );
        if let Some(b) = root {
            let mut value = results.remove(i);
            value.nest_backtrace(
                LabelBacktraceKind::Expression,
                None,
                call_location.duplicate(),
                &single(b),
            );
            results.insert(i, value);
        }
        i = i + 1;
    }
    proof {
        assert(all.len() == 1 ==> all[0] == old(results)@[0]@);
        assert(values_of(results@) =~= sourced(all, directives_of(directives@), known, call_location@));
    }
}

fn revoke_expandable(
    value: Value,
    directives: &Vec<BlanketDirective>,
    arg_consts: &Vec<Option<SimpleConstValue>>,
) -> (r: Value)
    ensures
        r@ == revoked_expandable(
            value@,
            directives_of(directives@),
            known_texts(arg_consts@),
            directives_of(directives@).len() as int,
        ),
{
    let ghost known = known_texts(arg_consts@);
    let ghost start = value@;
    let mut value = value;
    let n: usize = directives.len();
    let mut i: usize = 0;
    while i < n
        invariant
            i <= n,
            n == directives@.len(),
            known == known_texts(arg_consts@),
            value@ == revoked_expandable(start, directives_of(directives@), known, i as int),
        decreases n - i,
    {
        let d = &directives[i];
        if is_concerned(d, BlanketDirectiveKind::Revocation, arg_consts) {
            let selector = d.result_selector();
            let m: usize = selector.len();
            if m == 0 {
                value.subtract_label(d.label());
            } else {
                let ghost before = value@;
                let label = d.label();
                let mut j: usize = 0;
                while j < m
                    invariant
                        j <= m,
                        m == selector.listing().len(),
                        selector.listing() == d@.results,
                        label.wf(),
                        label@ == d@.label,
                        value@ == revoked_at(before, d@.results, d@.label, j as int),
                    decreases m - j,
                {
                    value.subtract_label_at(*selector.at(j), label);
                    j = j + 1;
                }
            }
        }
        i = i + 1;
    }
    value
}

/// Takes away from results the labels that the policy revokes from those of a
/// function.
pub fn apply_call_blanket_revocations(
    results: &mut Vec<Value>,
    directives: &Vec<BlanketDirective>,
    arg_consts: &Vec<Option<SimpleConstValue>>,
)
    ensures
        values_of(final(results)@) == revoked(
            values_of(old(results)@),
            directives_of(directives@),
            known_texts(arg_consts@),
        ),
        final(results)@.len() == old(results)@.len(),
{
    let ghost known = known_texts(arg_consts@);
    let ghost all = values_of(results@);
    let n: usize = results.len();
    if n == 1 && results[0].supports_overriding_expand_indices() {
        let value = results.remove(0);
        let revoked_value = revoke_expandable(value, directives, arg_consts);
        let ghost m = revoked_value@;
        results.push(revoked_value);
        proof {
            assert(all.len() == 1);
            assert(values_of(results@) =~= seq![m]);
        }
        return;
    }
    let mut i: usize = 0;
    while i < n
        invariant
            i <= n,
            n == results@.len(),
            n == all.len(),
            known == known_texts(arg_consts@),
            forall|k: int|
                0 <= k < i ==> (#[trigger] results@[k])@ == relieved(
                    all[k],
                    summed(
                        labels_for(
                            directives_of(directives@),
                            BlanketDirectiveKind::Revocation,
                            known,
                            k,
                            directives_of(directives@).len() as int,
                        ),
                    ),
                ),
            forall|k: int| i <= k < n ==> (#[trigger] results@[k])@ == all[k],
        decreases n - i,
    {
        let label = label_for_result(directives, BlanketDirectiveKind::Revocation, arg_consts, i);
        let mut value = results.remove(i);
        value.subtract_label(&label);
        results.insert(i, value);
        i = i + 1;
    }
    proof {
        assert(all.len() == 1 ==> all[0] == old(results)@[0]@);
        assert(values_of(results@) =~= revoked(all, directives_of(directives@), known));
    }
}

/// The results of a function with a known implementation, with its placeholders
/// substituted.
pub fn calculate_call_result(
    func: &FunctionRef,
    outcome: &Vec<Value>,
    substitutions: &Vec<(SyntheticSlot, Option<&LabelBacktrace>)>,
) -> (r: Vec<Value>)
    ensures
        values_of(r@) == values_of(outcome@).map_values(
            |v: ValueModel| value_realized(v, func@, substitutions_of(substitutions@)),
        ),
        r@.len() == outcome@.len(),
{
    let mut r: Vec<Value> = Vec::new();
    let n: usize = outcome.len();
    let mut i: usize = 0;
    while i < n
        invariant
            i <= n,
            n == outcome@.len(),
            r@.len() == i,
            forall|k: int|
                0 <= k < i ==> (#[trigger] r@[k])@ == value_realized(
                    outcome@[k]@,
                    func@,
                    substitutions_of(substitutions@),
                ),
        decreases n - i,
    {
        r.push(outcome[i].realize_all(func, substitutions));
        i = i + 1;
    }
    proof {
        assert(values_of(r@) =~= values_of(outcome@).map_values(
            |v: ValueModel| value_realized(v, func@, substitutions_of(substitutions@)),
        ));
    }
    r
}

} // verus!
