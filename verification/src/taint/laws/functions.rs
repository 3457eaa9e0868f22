//! What holds within functions, and of what is known of them.

use vstd::prelude::*;

use crate::ast::Annotation;
use crate::build_constraints::views;
use crate::context::branches::{branches_sound, law_entering_adds};
use crate::context::ContextModel;
use crate::functions::FunctionModel;
use crate::labels::backtraces::{label_or_bottom, listed, root_trace, LabelBacktraceKind};
use crate::labels::tags::{SyntheticSlot, TagModel};
use crate::labels::trace_laws::{is_plain, sound, spread};
use crate::locations::{Location, PinnedModel, SpanModel};
use crate::policy::blanket_directives::DirectiveModel;
use crate::policy::written_policy;
use crate::symbols::table::TableModel;
use crate::taint::annotations::AnnotationSite;
use crate::taint::funcs::bodies::{prepared_lefts, prepared_values, receiver_declared, ReceiverDecl};
use crate::taint::funcs::definitions::{body_entered, call_site_branch, definition, names_of_params,
    parameter_value, parameters_declared};
use crate::taint::funcs::{slots_of, slots_of_param, ParamModel, SignatureModel};
use crate::taint::implicit::PlaceModel;
use crate::taint::laws::declarations::{are_possible, is_labelled_plainly, labels_with,
    law_annotations_label_and_revoke, law_assignments_write_their_own_values,
    lemma_directives_differ};
use crate::taint::laws::expressions::{lemma_one, lemma_simple};
use crate::taint::laws::lemma_parts_of;
use crate::taint::mutation::{LeftModel, StepModel};
use crate::values::laws::{all_tags, law_nesting_adds_tags, value_sound};
use crate::values::{TypeModel, ValueModel};

verus! {

proof fn lemma_placeholder(
    func: FunctionModel,
    slot: SyntheticSlot,
    id: SpanModel,
    declared_type: Option<TypeModel>,
    file: Seq<char>,
)
    ensures
        value_sound(parameter_value(func, slot, id, declared_type, file)),
        all_tags(parameter_value(func, slot, id, declared_type, file)) == set![
            TagModel::Synthetic { func, slot },
        ],
{
    let at = PinnedModel { file, inner: id.location };
    let tag = TagModel::Synthetic { func, slot };
    let label = set![tag];
    assert(label.contains(tag));
    let t = root_trace(LabelBacktraceKind::FunctionParameter, label, Some(id.content), at)->0;
    assert(is_plain(label));
    assert(spread(t.children) =~= Set::<TagModel>::empty());
    assert(sound(t));
    lemma_simple(Some(t), at);
    let v = parameter_value(func, slot, id, declared_type, file);
    lemma_parts_of(ValueModel::simple(Some(t), at), v, 0);
    assert(all_tags(v) =~= label);
}

/// Whether a name stands, in the current scope of a table, for a variable that
/// carries nothing but the placeholder of a slot of a function.
pub open spec fn stands_for_slot(
    t: TableModel,
    name: Seq<char>,
    func: FunctionModel,
    slot: SyntheticSlot,
) -> bool {
    t.resolved(Some(t.current), name) matches Some(s) && {
        &&& s < t.symbols.len()
        &&& value_sound(t.symbols[s as int].value)
        &&& all_tags(t.symbols[s as int].value) == set![TagModel::Synthetic { func, slot }]
    }
}

/// Within a method, the receiver carries the placeholder for what will be the
/// receiver of a call, and nothing else.
pub proof fn law_receivers_carry_their_placeholder(
    ctx: ContextModel,
    t: TableModel,
    func: FunctionModel,
    receiver: &ReceiverDecl,
)
    requires
        t.current < t.scopes.len(),
        t.symbols.len() < usize::MAX,
        receiver.id matches Some(id) && id@.content != "_"@,
    ensures
        stands_for_slot(
            receiver_declared(ctx, t, func, Some(receiver)).1,
            receiver.id->0@.content,
            func,
            SyntheticSlot::Receiver,
        ),
{
    lemma_placeholder(
        func,
        SyntheticSlot::Receiver,
        receiver.id->0@,
        crate::values::type_of(receiver.declared_type),
        ctx.log.file->0,
    );
}

proof fn lemma_parameters(
    ctx: ContextModel,
    t: TableModel,
    func: FunctionModel,
    names: Seq<Option<SpanModel>>,
    types: Seq<Option<TypeModel>>,
    i: int,
    n: int,
)
    requires
        t.current < t.scopes.len(),
        t.symbols.len() + names.len() < usize::MAX,
        0 <= n <= names.len(),
        0 <= i < names.len(),
        names[i] matches Some(id) && id.content != "_"@,
        forall|j: int|
            i < j < names.len() ==> (#[trigger] names[j] matches Some(id) ==> id.content
                != names[i]->0.content),
    ensures
        ({
            let now = parameters_declared(ctx, t, func, names, types, n).1;
            &&& now.current == t.current
            &&& now.scopes.len() == t.scopes.len()
            &&& t.symbols.len() <= now.symbols.len() <= t.symbols.len() + n
            &&& i < n ==> {
                let local = now.scopes[now.current as int].symbols;
                let s = local[names[i]->0.content];
                &&& local.dom().contains(names[i]->0.content)
                &&& s < now.symbols.len()
                &&& value_sound(now.symbols[s as int].value)
                &&& all_tags(now.symbols[s as int].value) == set![
                    TagModel::Synthetic { func, slot: SyntheticSlot::Param(i as usize) },
                ]
            }
        }),
    decreases n,
{
    if n > 0 {
        lemma_parameters(ctx, t, func, names, types, i, n - 1);
        if let Some(id) = names[n - 1] {
            let (before, _table) = parameters_declared(ctx, t, func, names, types, n - 1);
            lemma_placeholder(
                func,
                SyntheticSlot::Param((n - 1) as usize),
                id,
                if n - 1 < types.len() {
                    types[n - 1]
                } else {
                    None
                },
                before.log.file->0,
            );
        }
    }
}

/// Within a function, each parameter carries the placeholder for the argument at
/// its own place, and nothing else.
pub proof fn law_parameters_carry_their_own_placeholders(
    ctx: ContextModel,
    t: TableModel,
    func: FunctionModel,
    names: Seq<Option<SpanModel>>,
    types: Seq<Option<TypeModel>>,
    i: int,
)
    requires
        t.current < t.scopes.len(),
        t.symbols.len() + names.len() < usize::MAX,
        0 <= i < names.len(),
        names[i] matches Some(id) && id.content != "_"@,
        forall|j: int|
            i < j < names.len() ==> (#[trigger] names[j] matches Some(id) ==> id.content
                != names[i]->0.content),
    ensures
        stands_for_slot(
            parameters_declared(ctx, t, func, names, types, names.len() as int).1,
            names[i]->0.content,
            func,
            SyntheticSlot::Param(i as usize),
        ),
{
    lemma_parameters(ctx, t, func, names, types, i, names.len() as int);
}

/// There are as many names of parameters as there are places for arguments, and
/// each stands at the place to which it belongs.
pub proof fn law_names_of_parameters_stand_at_their_places(params: Seq<ParamModel>)
    ensures
        names_of_params(params).len() == slots_of(params).len(),
        forall|i: int|
            0 <= i < slots_of(params).len() ==> (#[trigger] slots_of(params)[i]).name
                == match names_of_params(params)[i] {
                Some(id) => Some(id.content),
                None => None,
            },
    decreases params.len(),
{
    if params.len() > 0 {
        let front = params.drop_last();
        let last = params.last();
        law_names_of_parameters_stand_at_their_places(front);
        let slots = slots_of(params);
        let names = names_of_params(params);
        assert forall|i: int| 0 <= i < slots.len() implies (#[trigger] slots[i]).name
            == match names[i] {
            Some(id) => Some(id.content),
            None => None,
        } by {
            if i < slots_of(front).len() {
                assert(slots[i] == slots_of(front)[i]);
                assert(names[i] == names_of_params(front)[i]);
            } else {
                let j = i - slots_of(front).len();
                assert(slots[i] == slots_of_param(last)[j]);
            }
        }
    }
}

/// All that is done in the body of a function depends on what decides whether it is
/// called, along with what it depended on before; in the function with which a
/// program starts, it depends on nothing more.
pub proof fn law_bodies_depend_on_their_call(
    ctx: ContextModel,
    func: FunctionModel,
    at: PinnedModel<Location>,
)
    requires
        ctx.branches.is_settled(),
        branches_sound(ctx.branches),
    ensures
        ({
            let inside = body_entered(ctx, func, at);
            let tag = TagModel::Synthetic { func, slot: SyntheticSlot::CallSiteBranch };
            &&& label_or_bottom(inside.branches.current()) == if func.is_main() {
                label_or_bottom(ctx.branches.current())
            } else {
                label_or_bottom(ctx.branches.current()).insert(tag)
            }
            &&& inside.funcs.len() == ctx.funcs.len() + 1
            &&& inside.funcs.last().func == func
            &&& inside.funcs.last().checks.len() == 0
            &&& inside.branches.depth == ctx.branches.depth + 1
        }),
{
    let branch = call_site_branch(func, at);
    let tag = TagModel::Synthetic { func, slot: SyntheticSlot::CallSiteBranch };
    assert(branch.label.contains(tag));
    assert(is_plain(branch.label));
    assert(spread(branch.children) =~= Set::<TagModel>::empty());
    assert(sound(branch));
    law_entering_adds(ctx.branches, branch);
    assert(branch.label.union(label_or_bottom(ctx.branches.current())) =~= label_or_bottom(
        ctx.branches.current(),
    ).insert(tag));
}

/// What a function returns under a name is the last value of the variable of that
/// name: once the body is left, the result there has its tags and those of the
/// branch at the end, and no others. A result without a name keeps what was
/// returned there. The checks that were put off in the body stay with the function,
/// and no other function changes.
pub proof fn law_functions_keep_what_their_bodies_leave(
    p: PlaceModel,
    func: FunctionModel,
    function: usize,
    ids: Seq<SpanModel>,
    location: Location,
    i: int,
)
    requires
        function < p.table.functions.len(),
        p.table.functions[function as int].outcome matches Some(o) && 0 <= i < o.len(),
        p.ctx.branches.current() matches Some(t) ==> sound(t),
        p.ctx.funcs.len() > 0,
    ensures
        ({
            let f = p.table.functions[function as int];
            let after = p.function_closed(func, function, ids, location);
            let now = after.table.functions[function as int];
            let local = p.table.scopes[p.table.current as int].symbols;
            let value = p.table.symbols[local[ids[i].content] as int].value;
            let named = i < ids.len() && ids[i].content != "_"@ && local.dom().contains(
                ids[i].content,
            );
            &&& now.outcome matches Some(o) && o.len() == f.outcome->0.len() && (!named ==> o[i]
                == f.outcome->0[i]) && (named && value_sound(value) ==> value_sound(o[i])
                && all_tags(o[i]) == all_tags(value).union(
                label_or_bottom(p.ctx.branches.current()),
            ))
            &&& now.deferred_checks == p.ctx.funcs.last().checks
            &&& now.func == f.func
            &&& now.directives == f.directives
            &&& now.signature == f.signature
            &&& after.ctx.funcs == p.ctx.funcs.drop_last()
            &&& after.table.functions.len() == p.table.functions.len()
            &&& forall|k: int|
                0 <= k < p.table.functions.len() && k != function
                    ==> #[trigger] after.table.functions[k] == p.table.functions[k]
        }),
{
    let local = p.table.scopes[p.table.current as int].symbols;
    if i < ids.len() && ids[i].content != "_"@ && local.dom().contains(ids[i].content) {
        let value = p.table.symbols[local[ids[i].content] as int].value;
        let branch = p.ctx.branches.current();
        if value_sound(value) {
            lemma_one(branch);
            law_nesting_adds_tags(
                value,
                LabelBacktraceKind::Return,
                None,
                p.at(location),
                listed(branch),
            );
        }
    }
}

proof fn lemma_prepared(t: TableModel, ids: Seq<SpanModel>, outcome: Seq<ValueModel>, n: int)
    requires
        0 <= n <= ids.len(),
        ids.len() <= outcome.len(),
        forall|j: int|
            0 <= j < ids.len() ==> (#[trigger] ids[j]).content != "_"@ && t.resolved(
                Some(t.current),
                ids[j].content,
            ) is Some,
    ensures
        prepared_lefts(t, ids, outcome.len(), n).len() == n,
        prepared_values(t, ids, outcome, n).len() == n,
        forall|j: int|
            0 <= j < n ==> #[trigger] prepared_lefts(t, ids, outcome.len(), n)[j] == (LeftModel {
                symbol: t.resolved(Some(t.current), ids[j].content)->0,
                name: ids[j],
                path: Seq::<StepModel>::empty(),
            }),
        forall|j: int|
            0 <= j < n ==> (#[trigger] prepared_values(t, ids, outcome, n)[j]).0 == outcome[j],
    decreases n,
{
    if n > 0 {
        lemma_prepared(t, ids, outcome, n - 1);
        assert(ids[n - 1].content != "_"@);
    }
}

/// Before the calls are made that a function put off, each of its named results has
/// the tags of the value that the function returns at its place, and nothing but
/// these, those that it had and those of the branch.
pub proof fn law_put_off_calls_find_what_is_returned(
    p: PlaceModel,
    function: usize,
    ids: Seq<SpanModel>,
    location: Location,
    i: int,
)
    requires
        function < p.table.functions.len(),
        p.table.functions[function as int].outcome is Some,
        ids.len() <= p.table.functions[function as int].outcome->0.len(),
        0 <= i < ids.len(),
        value_sound(p.table.functions[function as int].outcome->0[i]),
        p.ctx.branches.current() matches Some(t) ==> sound(t),
        forall|j: int|
            0 <= j < ids.len() ==> (#[trigger] ids[j]).content != "_"@ && (p.table.resolved(
                Some(p.table.current),
                ids[j].content,
            ) matches Some(s) && s < p.table.symbols.len() && p.table.symbols[s as int].mutable
                && value_sound(p.table.symbols[s as int].value)),
        forall|j: int, k: int|
            0 <= j < k < ids.len() ==> p.table.resolved(
                Some(p.table.current),
                (#[trigger] ids[j]).content,
            ) != p.table.resolved(Some(p.table.current), (#[trigger] ids[k]).content),
    ensures
        ({
            let after = p.results_prepared(function, ids, location);
            let s = p.table.resolved(Some(p.table.current), ids[i].content)->0;
            let returned_there = p.table.functions[function as int].outcome->0[i];
            let branch = label_or_bottom(p.ctx.branches.current());
            let now = all_tags(after.table.symbols[s as int].value);
            &&& all_tags(returned_there).union(branch).subset_of(now)
            &&& now.subset_of(
                all_tags(p.table.symbols[s as int].value).union(all_tags(returned_there)).union(
                    branch,
                ),
            )
        }),
{
    let t = p.table;
    let outcome = t.functions[function as int].outcome->0;
    let n = ids.len() as int;
    assert forall|j: int| 0 <= j < ids.len() implies (#[trigger] ids[j]).content != "_"@
        && t.resolved(Some(t.current), ids[j].content) is Some by {}
    lemma_prepared(t, ids, outcome, n);
    let lefts = prepared_lefts(t, ids, outcome.len(), n);
    let values = prepared_values(t, ids, outcome, n);
    assert(are_possible(p.ctx, t, lefts, location)) by {
        assert forall|j: int| 0 <= j < lefts.len() implies {
            let left = #[trigger] lefts[j];
            &&& left.symbol < t.symbols.len()
            &&& t.symbols[left.symbol as int].mutable
            &&& t.symbols[left.symbol as int].value.has_path(
                left.path,
                PinnedModel { file: p.ctx.log.file->0, inner: location },
            )
            &&& value_sound(t.symbols[left.symbol as int].value)
            &&& crate::values::part_laws::path_sound(left.path)
        } by {
            assert(ids[j].content != "_"@);
        }
        assert forall|j: int, k: int| 0 <= j < k < lefts.len() implies (
        #[trigger] lefts[j]).symbol != (#[trigger] lefts[k]).symbol by {
            assert(t.resolved(Some(t.current), ids[j].content) != t.resolved(
                Some(t.current),
                ids[k].content,
            ));
            assert(ids[j].content != "_"@);
            assert(ids[k].content != "_"@);
        }
    }
    let at = PinnedModel { file: p.ctx.log.file->0, inner: location };
    law_assignments_write_their_own_values(
        p.ctx,
        t,
        lefts,
        LabelBacktraceKind::Return,
        values,
        true,
        None,
        Set::<TagModel>::empty(),
        location,
        p.regions,
        i,
        at,
    );
    let s = t.resolved(Some(t.current), ids[i].content)->0;
    assert(lefts[i].symbol == s);
    let after = p.results_prepared(function, ids, location);
    let now = after.table.symbols[s as int].value;
    assert(now.read_along(lefts[i].path, at) == now);
    assert(crate::values::part_laws::path_tags(lefts[i].path) =~= Set::<TagModel>::empty());
    assert forall|x: TagModel|
        all_tags(outcome[i]).union(label_or_bottom(p.ctx.branches.current())).contains(
            x,
        ) implies all_tags(now).contains(x) by {
        assert(!crate::labels::covers(Set::<TagModel>::empty(), x));
    }
}

/// A function with an annotation has, before its body is visited, the tags that
/// this labels it with; an annotation that revokes, allows or denies something is
/// to the function as if the policy said that of it. What the policy says stays in
/// place, and nothing is returned yet that has tags.
pub proof fn law_annotated_functions(
    func: FunctionModel,
    signature: SignatureModel,
    has_receiver: bool,
    annotation: Option<&Annotation>,
    policy: Seq<DirectiveModel>,
    types: Seq<Option<TypeModel>>,
    at: PinnedModel<Location>,
    x: TagModel,
)
    requires
        is_labelled_plainly(annotation),
    ensures
        ({
            let f = definition(func, signature, has_receiver, annotation, policy, types, at);
            let said = annotation->0;
            let revokes = annotation is Some && said.directive@ == "revoke"@ && said.tags@.len()
                > 0;
            let allows = annotation is Some && said.directive@ == "allow"@;
            let denies = annotation is Some && said.directive@ == "deny"@ && said.tags@.len() > 0;
            &&& f.func == func
            &&& label_or_bottom(f.own).contains(x) <==> labels_with(annotation, x)
            &&& f.outcome matches Some(o) && o.len() == signature.result_count && forall|i: int|
                0 <= i < o.len() ==> all_tags(#[trigger] o[i]) == Set::<TagModel>::empty()
            &&& f.deferred_checks.len() == 0
            &&& if revokes || allows || denies {
                &&& f.directives.len() == policy.len() + 1
                &&& f.directives.drop_first() == policy
                &&& f.directives[0].label == written_policy(views(said.tags@))
                &&& revokes <==> f.directives[0].kind is Revocation
                &&& allows <==> f.directives[0].kind is AllowSink
                &&& denies <==> f.directives[0].kind is DenySink
                &&& f.directives[0].arg_index is None
                &&& f.directives[0].predicate is None
                &&& f.directives[0].results.len() == 0
            } else {
                f.directives == policy
            }
        }),
{
    lemma_directives_differ();
    law_annotations_label_and_revoke(annotation, AnnotationSite::Function, None, at, x);
    lemma_simple(None, at);
    let f = definition(func, signature, has_receiver, annotation, policy, types, at);
    if f.directives.len() == policy.len() + 1 {
        assert(f.directives.drop_first() =~= policy);
    }
}

} // verus!
