//! What holds of declarations, of several assignments at once, and of what
//! annotations say of them.

use vstd::prelude::*;

use crate::ast::Annotation;
use crate::build_constraints::views;
use crate::context::reports::LogModel;
use crate::context::ContextModel;
use crate::errors::ErrorModel;
use crate::labels::backtraces::{label_or_bottom, root_trace, LabelBacktraceKind, Trace};
use crate::labels::tags::TagModel;
use crate::labels::trace_laws::{is_plain, sound, spread};
use crate::labels::{covers, written};
use crate::locations::{Location, PinnedModel, SpanModel};
use crate::policy::{written_policy, SinkKind, SinkModel};
use crate::symbols::table::TableModel;
use crate::symbols::SymbolModel;
use crate::taint::annotations::AnnotationSite;
use crate::taint::explicit::{all_assigned, annotated, assignment_of, existing_declaration,
    explicit_of, outside_all, subtract_of, zero_declared, BindingState, KnownModel};
use crate::taint::funcs::call_checks::{args_asserted, args_at_sink, call_annotated,
    written_sequence};
use crate::taint::laws::checks::{adds_errors, are_settled, law_assertions_hold_of_each_argument,
    law_sinks_judge_the_arguments_they_are_meant_for, refused_args};
use crate::taint::laws::expressions::lemma_simple;
use crate::taint::laws::parts::{assignment_sound, law_assigned_parts_carry_tags};
use crate::taint::laws::{law_assignments_carry_tags, lemma_parts_of, written_tags};
use crate::taint::mutation::{AssignmentModel, LeftModel, StepModel};
use crate::values::laws::{all_tags, value_sound};
use crate::values::part_laws::{path_sound, path_tags};
use crate::values::{carried, TypeModel, ValueModel};

verus! {

proof fn lemma_sinks_stay(
    ctx: ContextModel,
    sink: SinkModel,
    flows: Seq<Option<Trace>>,
    n: int,
)
    ensures
        args_at_sink(ctx, sink, None, flows, n).branches == ctx.branches,
        args_at_sink(ctx, sink, None, flows, n).log.file == ctx.log.file,
    decreases n,
{
    if n > 0 {
        lemma_sinks_stay(ctx, sink, flows, n - 1);
    }
}

proof fn lemma_assertions_stay(
    ctx: ContextModel,
    expected: Seq<Set<TagModel>>,
    flows: Seq<Option<Trace>>,
    location: Location,
    n: int,
)
    ensures
        args_asserted(ctx, expected, flows, location, n).branches == ctx.branches,
        args_asserted(ctx, expected, flows, location, n).log.file == ctx.log.file,
    decreases n,
{
    if n > 0 {
        lemma_assertions_stay(ctx, expected, flows, location, n - 1);
    }
}

proof fn lemma_annotated_stays(
    ctx: ContextModel,
    annotation: Option<&Annotation>,
    site: AnnotationSite,
    kind: SinkKind,
    flows: Seq<Option<Trace>>,
    location: Location,
)
    ensures
        annotated(ctx, annotation, site, kind, flows, location).branches == ctx.branches,
        annotated(ctx, annotation, site, kind, flows, location).log.file == ctx.log.file,
{
    if let Some(a) = annotation {
        let n = flows.len() as int;
        lemma_assertions_stay(ctx, written_sequence(views(a.tags@)), flows, location, n);
        lemma_sinks_stay(
            ctx,
            SinkModel { kind, allow: true, label: written_policy(views(a.tags@)), location },
            flows,
            n,
        );
        lemma_sinks_stay(
            ctx,
            SinkModel { kind, allow: false, label: written_policy(views(a.tags@)), location },
            flows,
            n,
        );
    }
}

/// Whether an annotation labels what it belongs to with a tag.
pub open spec fn labels_with(annotation: Option<&Annotation>, x: TagModel) -> bool {
    annotation matches Some(a) && a.directive@ == "label"@ && written(views(a.tags@)).contains(x)
}

/// Whether an annotation takes a tag away from what it belongs to.
pub open spec fn takes_away(annotation: Option<&Annotation>, x: TagModel) -> bool {
    annotation matches Some(a) && a.directive@ == "revoke"@ && a.tags@.len() > 0 && covers(
        written_policy(views(a.tags@)),
        x,
    )
}

/// Whether the label that an annotation gives, if it gives one, is one without
/// wildcards.
pub open spec fn is_labelled_plainly(annotation: Option<&Annotation>) -> bool {
    annotation matches Some(a) ==> a.directive@ == "label"@ ==> is_plain(written(views(a.tags@)))
}

pub proof fn lemma_directives_differ()
    ensures
        "label"@ != "revoke"@,
        "label"@ != "allow"@,
        "label"@ != "deny"@,
        "label"@ != "assert"@,
        "revoke"@ != "allow"@,
        "revoke"@ != "deny"@,
        "revoke"@ != "assert"@,
        "allow"@ != "deny"@,
        "allow"@ != "assert"@,
        "deny"@ != "assert"@,
{
    reveal_strlit("label");
    reveal_strlit("revoke");
    reveal_strlit("allow");
    reveal_strlit("deny");
    reveal_strlit("assert");
    assert("label"@[0] == 'l');
    assert("revoke"@.len() == 6);
    assert("allow"@[0] == 'a');
    assert("deny"@.len() == 4);
    assert("assert"@.len() == 6);
    assert("assert"@[0] == 'a');
    assert("revoke"@[0] == 'r');
    assert("label"@.len() == 5);
}

/// What an annotation of a declaration, of an assignment or of a send adds to a
/// value are the tags that it labels the value with, and no others; what it takes
/// away are those that it revokes.
pub proof fn law_annotations_label_and_revoke(
    annotation: Option<&Annotation>,
    site: AnnotationSite,
    symbol: Option<Seq<char>>,
    at: PinnedModel<Location>,
    x: TagModel,
)
    requires
        site is Decl || site is Assignment || site is Send || site is Function,
        is_labelled_plainly(annotation),
    ensures
        explicit_of(annotation, site, symbol, at) matches Some(t) ==> sound(t),
        label_or_bottom(explicit_of(annotation, site, symbol, at)).contains(x) <==> labels_with(
            annotation,
            x,
        ),
        covers(subtract_of(annotation, site), x) <==> takes_away(annotation, x),
{
    lemma_directives_differ();
    if let Some(a) = annotation {
        let label = written(views(a.tags@));
        if let Some(root) = root_trace(LabelBacktraceKind::ExplicitAnnotation, label, symbol, at) {
            assert(spread(root.children) =~= Set::<TagModel>::empty());
            if a.directive@ == "label"@ {
                assert(sound(root));
            }
        }
    }
}

/// Values that come to something with an annotation that makes a sink of it are
/// reported, one by one, exactly as far as the sink does not accept the tags that
/// they and the branches around have; those of which one asserts something,
/// exactly if one of them does not have just the tags that are asserted. An
/// annotation that only labels or revokes reports nothing, and one that says
/// something else is reported itself.
pub proof fn law_annotations_are_checked(
    ctx: ContextModel,
    a: &Annotation,
    site: AnnotationSite,
    kind: SinkKind,
    flows: Seq<Option<Trace>>,
    location: Location,
)
    requires
        ctx.log.listens(),
        ctx.log.file is Some,
        are_settled(ctx, flows),
        site is Decl || site is Assignment || site is Send,
    ensures
        ({
            let after = annotated(ctx, Some(a), site, kind, flows, location);
            let branch = ctx.branches.current();
            let allow = a.directive@ == "allow"@;
            let deny = a.directive@ == "deny"@;
            let sink = SinkModel { kind, allow, label: written_policy(views(a.tags@)), location };
            let expected = written_sequence(views(a.tags@));
            &&& allow || deny && a.tags@.len() > 0 ==> adds_errors(
                ctx,
                after,
                sink,
                refused_args(sink, flows, branch).len(),
            )
            &&& a.directive@ == "assert"@ && expected.len() > 0 ==> (after.log.errors.len()
                > ctx.log.errors.len() <==> exists|i: int|
                0 <= i < flows.len() && label_or_bottom(#[trigger] flows[i]).union(
                    label_or_bottom(branch),
                ) != expected[0])
            &&& a.directive@ == "label"@ || a.directive@ == "revoke"@ && a.tags@.len() > 0
                ==> after == ctx
            &&& deny && a.tags@.len() == 0 ==> after.log.errors.len() == ctx.log.errors.len() + 1
                && after.log.errors.last().kind is InvalidDenySinkSemantics
            &&& a.directive@ == "revoke"@ && a.tags@.len() == 0 ==> after.log.errors.len()
                == ctx.log.errors.len() + 1 && after.log.errors.last().kind
                is InvalidRevocationSemantics
            &&& !(allow || deny || a.directive@ == "assert"@ || a.directive@ == "label"@
                || a.directive@ == "revoke"@) ==> after.log.errors.len() == ctx.log.errors.len() + 1
                && after.log.errors.last().kind is UnknownAnnotationDirective
        }),
{
    lemma_directives_differ();
    let allow = a.directive@ == "allow"@;
    let sink = SinkModel { kind, allow, label: written_policy(views(a.tags@)), location };
    law_sinks_judge_the_arguments_they_are_meant_for(ctx, sink, None, flows);
    let expected = written_sequence(views(a.tags@));
    if expected.len() > 0 {
        law_assertions_hold_of_each_argument(ctx, expected, flows, location, flows.len() as int);
    }
}

/// The arguments of a call with an annotation that makes a sink of it are reported,
/// one by one, exactly as far as the sink does not accept the tags that they and the
/// branches around have; those of which one asserts something, exactly if one of
/// them does not have just the tags that are asserted. A call can neither be labelled
/// nor relieved: such an annotation is reported itself.
pub proof fn law_annotations_of_calls_are_checked(
    ctx: ContextModel,
    a: &Annotation,
    flows: Seq<Option<Trace>>,
    location: Location,
)
    requires
        ctx.log.listens(),
        ctx.log.file is Some,
        are_settled(ctx, flows),
    ensures
        ({
            let after = call_annotated(ctx, Some(a), flows, location);
            let branch = ctx.branches.current();
            let allow = a.directive@ == "allow"@;
            let deny = a.directive@ == "deny"@;
            let sink = SinkModel {
                kind: SinkKind::Call,
                allow,
                label: written_policy(views(a.tags@)),
                location,
            };
            let expected = written_sequence(views(a.tags@));
            &&& allow || deny && a.tags@.len() > 0 ==> adds_errors(
                ctx,
                after,
                sink,
                refused_args(sink, flows, branch).len(),
            )
            &&& a.directive@ == "assert"@ && expected.len() > 0 ==> (after.log.errors.len()
                > ctx.log.errors.len() <==> exists|i: int|
                0 <= i < flows.len() && label_or_bottom(#[trigger] flows[i]).union(
                    label_or_bottom(branch),
                ) != expected[0])
            &&& deny && a.tags@.len() == 0 ==> after.log.errors.len() == ctx.log.errors.len() + 1
                && after.log.errors.last().kind is InvalidDenySinkSemantics
            &&& !(allow || deny || a.directive@ == "assert"@) ==> after.log.errors.len()
                == ctx.log.errors.len() + 1 && after.log.errors.last().kind
                is UnknownAnnotationDirective
        }),
{
    lemma_directives_differ();
    let allow = a.directive@ == "allow"@;
    let sink = SinkModel {
        kind: SinkKind::Call,
        allow,
        label: written_policy(views(a.tags@)),
        location,
    };
    law_sinks_judge_the_arguments_they_are_meant_for(ctx, sink, None, flows);
    let expected = written_sequence(views(a.tags@));
    if expected.len() > 0 {
        law_assertions_hold_of_each_argument(ctx, expected, flows, location, flows.len() as int);
    }
}

/// The tags that a variable gets that is declared with a value: those of the value
/// and of the branch under which it is declared, and those that an annotation
/// labels it with, but for those that one takes away.
pub open spec fn gets_tag(
    rhs: ValueModel,
    branch: Option<Trace>,
    annotation: Option<&Annotation>,
    x: TagModel,
) -> bool {
    (all_tags(rhs).contains(x) || label_or_bottom(branch).contains(x) || labels_with(annotation, x))
        && !takes_away(annotation, x)
}

/// A name that is declared with a value stands from then on, in the scope in which
/// that is done, for a new variable that has the tags of the value and of the
/// branch under which it is declared, along with those that an annotation labels
/// it with, but for those that one takes away, and no others. It can be assigned to
/// exactly if it is no constant. All other names and variables stay as they are.
pub proof fn law_declared_variables_have_the_tags_of_their_values(
    st: BindingState,
    id: SpanModel,
    rhs: KnownModel,
    mutable: bool,
    short: bool,
    location: Location,
    annotation: Option<&Annotation>,
    declared_type: Option<TypeModel>,
    regions: Seq<PinnedModel<Location>>,
)
    requires
        st.table.current < st.table.scopes.len(),
        st.table.symbols.len() < usize::MAX,
        id.content != "_"@,
        !short || !st.table.scopes[st.table.current as int].symbols.dom().contains(id.content),
        value_sound(rhs.0),
        st.ctx.branches.current() matches Some(t) ==> sound(t),
        is_labelled_plainly(annotation),
    ensures
        ({
            let after = st.binding(
                id,
                rhs,
                mutable,
                short,
                location,
                annotation,
                declared_type,
                regions,
            );
            let s = st.table.symbols.len() as int;
            let new = after.table.symbols[s];
            &&& after.table.symbols.len() == s + 1
            &&& after.table.resolved(Some(after.table.current), id.content) == Some(s as usize)
            &&& new.declared_name.inner == id
            &&& new.mutable == mutable
            &&& value_sound(new.value)
            &&& forall|x: TagModel|
                #[trigger] all_tags(new.value).contains(x) <==> gets_tag(
                    rhs.0,
                    st.ctx.branches.current(),
                    annotation,
                    x,
                )
            &&& new.known_const == if outside_all(regions, new.declared_name) {
                None
            } else {
                rhs.1
            }
            &&& after.any_new
            &&& after.redeclared == st.redeclared
            &&& forall|i: int| 0 <= i < s ==> #[trigger] after.table.symbols[i]
                == st.table.symbols[i]
            &&& after.table == (TableModel {
                symbols: after.table.symbols,
                ..st.table.declaring(id.content, s as usize)
            })
            &&& after.ctx.branches == st.ctx.branches
        }),
{
    let file = st.ctx.log.file->0;
    let at = PinnedModel { file, inner: location };
    let flows = seq![carried(rhs.0)];
    let site = AnnotationSite::Decl;
    let read = annotated(st.ctx, annotation, site, SinkKind::Declaration, flows, location);
    lemma_annotated_stays(st.ctx, annotation, site, SinkKind::Declaration, flows, location);
    let declaration = PinnedModel { file, inner: id };
    assert(existing_declaration(st.table, short, declaration) is None);
    let ready = (BindingState { ctx: read, ..st }).declaring(declaration, at, declared_type);
    let s = st.table.symbols.len() as usize;
    let fresh = ready.table.symbols[s as int];
    let blank = ValueModel { declared_type, ..ValueModel::simple(None, at) };
    assert(fresh.value == blank);
    lemma_simple(None, at);
    lemma_parts_of(ValueModel::simple(None, at), blank, 0);
    assert(all_tags(blank) =~= Set::<TagModel>::empty());
    assert(value_sound(blank));
    let explicit = explicit_of(annotation, site, Some(id.content), at);
    let subtract = subtract_of(annotation, site);
    let left = LeftModel { symbol: s, name: id, path: Seq::<StepModel>::empty() };
    let assignment = AssignmentModel {
        kind: LabelBacktraceKind::DeclarationInitialization,
        rhs: rhs.0,
        known_const: rhs.1,
        simple: true,
        explicit,
        subtract,
        location,
        outside_split: outside_all(regions, fresh.declared_name),
    };
    let branch = st.ctx.branches.current();
    let any = TagModel::AxisWildcard(id.content);
    law_annotations_label_and_revoke(annotation, site, Some(id.content), at, any);
    law_assignments_carry_tags(assignment, fresh, left, branch, at);
    let after = st.binding(
        id,
        rhs,
        mutable,
        short,
        location,
        annotation,
        declared_type,
        regions,
    );
    let new = after.table.symbols[s as int];
    assert(new.value == assignment.applied(fresh, left, branch, at).value);
    assert forall|x: TagModel|
        #[trigger] all_tags(new.value).contains(x) <==> gets_tag(rhs.0, branch, annotation, x) by {
        law_annotations_label_and_revoke(annotation, site, Some(id.content), at, x);
        assert(written_tags(assignment, blank, branch).contains(x) <==> gets_tag(
            rhs.0,
            branch,
            annotation,
            x,
        ));
    }
}

/// The blank name declares nothing.
pub proof fn law_the_blank_name_declares_nothing(
    st: BindingState,
    id: SpanModel,
    rhs: KnownModel,
    mutable: bool,
    short: bool,
    location: Location,
    annotation: Option<&Annotation>,
    declared_type: Option<TypeModel>,
    regions: Seq<PinnedModel<Location>>,
)
    requires
        id.content == "_"@,
    ensures
        st.binding(
            id,
            rhs,
            mutable,
            short,
            location,
            annotation,
            declared_type,
            regions,
        ).table == st.table,
{
}

/// Whether names are all different, none of them is the blank one, and none is
/// declared yet in the current scope.
pub open spec fn are_new(t: TableModel, ids: Seq<SpanModel>) -> bool {
    &&& t.current < t.scopes.len()
    &&& t.symbols.len() + ids.len() < usize::MAX
    &&& forall|i: int|
        0 <= i < ids.len() ==> (#[trigger] ids[i]).content != "_"@
            && !t.scopes[t.current as int].symbols.dom().contains(ids[i].content)
    &&& forall|i: int, j: int|
        0 <= i < j < ids.len() ==> (#[trigger] ids[i]).content != (#[trigger] ids[j]).content
}

/// Whether a symbol is what a name and a value make it.
pub open spec fn is_made_of(
    new: SymbolModel,
    id: SpanModel,
    rhs: ValueModel,
    mutable: bool,
    branch: Option<Trace>,
    annotation: Option<&Annotation>,
) -> bool {
    &&& new.declared_name.inner == id
    &&& new.mutable == mutable
    &&& value_sound(new.value)
    &&& forall|x: TagModel|
        #[trigger] all_tags(new.value).contains(x) <==> gets_tag(rhs, branch, annotation, x)
}

#[verifier::rlimit(60)]
proof fn lemma_binding_all(
    st: BindingState,
    ids: Seq<SpanModel>,
    rhs: Seq<KnownModel>,
    mutable: bool,
    short: bool,
    location: Location,
    annotation: Option<&Annotation>,
    declared_type: Option<TypeModel>,
    regions: Seq<PinnedModel<Location>>,
    n: int,
)
    requires
        are_new(st.table, ids),
        0 <= n <= ids.len(),
        ids.len() == rhs.len(),
        forall|i: int| 0 <= i < rhs.len() ==> value_sound((#[trigger] rhs[i]).0),
        st.ctx.branches.current() matches Some(t) ==> sound(t),
        is_labelled_plainly(annotation),
    ensures
        ({
            let after = st.binding_all(
                ids,
                rhs,
                mutable,
                short,
                location,
                annotation,
                declared_type,
                regions,
                n,
            );
            let names = after.table.scopes[after.table.current as int].symbols;
            let s = st.table.symbols.len() as int;
            &&& after.ctx.branches == st.ctx.branches
            &&& after.redeclared == st.redeclared
            &&& after.table.current == st.table.current
            &&& after.table.scopes.len() == st.table.scopes.len()
            &&& after.table.symbols.len() == s + n
            &&& forall|i: int| 0 <= i < s ==> #[trigger] after.table.symbols[i]
                == st.table.symbols[i]
            &&& forall|i: int| n <= i < ids.len() ==> !names.dom().contains(
                (#[trigger] ids[i]).content,
            )
            &&& forall|i: int|
                0 <= i < n ==> names.dom().contains((#[trigger] ids[i]).content)
                    && names[ids[i].content] == s + i
            &&& forall|i: int|
                0 <= i < n ==> is_made_of(
                    #[trigger] after.table.symbols[s + i],
                    ids[i],
                    rhs[i].0,
                    mutable,
                    st.ctx.branches.current(),
                    annotation,
                )
        }),
    decreases n,
{
    if n > 0 {
        lemma_binding_all(
            st,
            ids,
            rhs,
            mutable,
            short,
            location,
            annotation,
            declared_type,
            regions,
            n - 1,
        );
        let before = st.binding_all(
            ids,
            rhs,
            mutable,
            short,
            location,
            annotation,
            declared_type,
            regions,
            n - 1,
        );
        assert(value_sound(rhs[n - 1].0));
        assert(ids[n - 1].content != "_"@);
        law_declared_variables_have_the_tags_of_their_values(
            before,
            ids[n - 1],
            rhs[n - 1],
            mutable,
            short,
            location,
            annotation,
            declared_type,
            regions,
        );
        let after = st.binding_all(
            ids,
            rhs,
            mutable,
            short,
            location,
            annotation,
            declared_type,
            regions,
            n,
        );
        let s = st.table.symbols.len() as int;
        assert forall|i: int| 0 <= i < n implies is_made_of(
            #[trigger] after.table.symbols[s + i],
            ids[i],
            rhs[i].0,
            mutable,
            st.ctx.branches.current(),
            annotation,
        ) by {
            if i < n - 1 {
                assert(after.table.symbols[s + i] == before.table.symbols[s + i]);
            }
        }
    }
}

/// Of names that are declared together with as many values, each stands from then
/// on for a variable that has the tags of the value at its own place, along with
/// those of the branch and of the annotation, and no others.
pub proof fn law_names_get_their_own_values(
    st: BindingState,
    ids: Seq<SpanModel>,
    rhs: Seq<KnownModel>,
    mutable: bool,
    short: bool,
    location: Location,
    annotation: Option<&Annotation>,
    declared_type: Option<TypeModel>,
    regions: Seq<PinnedModel<Location>>,
    i: int,
)
    requires
        are_new(st.table, ids),
        ids.len() == rhs.len(),
        0 <= i < ids.len(),
        forall|j: int| 0 <= j < rhs.len() ==> value_sound((#[trigger] rhs[j]).0),
        st.ctx.branches.current() matches Some(t) ==> sound(t),
        is_labelled_plainly(annotation),
    ensures
        ({
            let t = st.binding_all(
                ids,
                rhs,
                mutable,
                short,
                location,
                annotation,
                declared_type,
                regions,
                ids.len() as int,
            ).table;
            &&& t.resolved(Some(t.current), ids[i].content) matches Some(s) && {
                &&& s < t.symbols.len()
                &&& t.symbols[s as int].mutable == mutable
                &&& forall|x: TagModel|
                    #[trigger] all_tags(t.symbols[s as int].value).contains(x) <==> gets_tag(
                        rhs[i].0,
                        st.ctx.branches.current(),
                        annotation,
                        x,
                    )
            }
            &&& forall|j: int|
                0 <= j < st.table.symbols.len() ==> #[trigger] t.symbols[j] == st.table.symbols[j]
        }),
{
    lemma_binding_all(
        st,
        ids,
        rhs,
        mutable,
        short,
        location,
        annotation,
        declared_type,
        regions,
        ids.len() as int,
    );
    let t = st.binding_all(
        ids,
        rhs,
        mutable,
        short,
        location,
        annotation,
        declared_type,
        regions,
        ids.len() as int,
    ).table;
    let s = st.table.symbols.len() as int;
    assert(t.scopes[t.current as int].symbols.dom().contains(ids[i].content));
    assert(is_made_of(
        t.symbols[s + i],
        ids[i],
        rhs[i].0,
        mutable,
        st.ctx.branches.current(),
        annotation,
    ));
}

/// A short declaration of a name that was declared before in the same scope declares
/// nothing: it is an assignment to the variable that the name stands for, which
/// gets the tags that it would have if it were declared there, along with those
/// that it had if it is declared outside of the branches that are being visited.
pub proof fn law_short_declarations_assign_to_what_is_there(
    st: BindingState,
    id: SpanModel,
    rhs: KnownModel,
    mutable: bool,
    location: Location,
    annotation: Option<&Annotation>,
    declared_type: Option<TypeModel>,
    regions: Seq<PinnedModel<Location>>,
    s: usize,
)
    requires
        st.table.current < st.table.scopes.len(),
        id.content != "_"@,
        st.ctx.log.file is Some,
        existing_declaration(
            st.table,
            true,
            PinnedModel { file: st.ctx.log.file->0, inner: id },
        ) is Some,
        s == st.table.scopes[st.table.current as int].symbols[id.content],
        s < st.table.symbols.len(),
        st.table.symbols[s as int].mutable,
        value_sound(st.table.symbols[s as int].value),
        value_sound(rhs.0),
        st.ctx.branches.current() matches Some(t) ==> sound(t),
        is_labelled_plainly(annotation),
    ensures
        ({
            let after = st.binding(
                id,
                rhs,
                mutable,
                true,
                location,
                annotation,
                declared_type,
                regions,
            );
            let previous = st.table.symbols[s as int];
            let now = after.table.symbols[s as int];
            &&& after.any_new == st.any_new
            &&& after.redeclared.len() == st.redeclared.len() + 1
            &&& after.table.symbols.len() == st.table.symbols.len()
            &&& after.table.scopes == st.table.scopes
            &&& value_sound(now.value)
            &&& forall|x: TagModel|
                #[trigger] all_tags(now.value).contains(x) <==> gets_tag(
                    rhs.0,
                    st.ctx.branches.current(),
                    annotation,
                    x,
                ) || outside_all(regions, previous.declared_name) && all_tags(
                    previous.value,
                ).contains(x)
            &&& forall|i: int|
                0 <= i < st.table.symbols.len() && i != s ==> #[trigger] after.table.symbols[i]
                    == st.table.symbols[i]
        }),
{
    let file = st.ctx.log.file->0;
    let at = PinnedModel { file, inner: location };
    let flows = seq![carried(rhs.0)];
    let site = AnnotationSite::Decl;
    lemma_annotated_stays(st.ctx, annotation, site, SinkKind::Declaration, flows, location);
    let previous = st.table.symbols[s as int];
    let explicit = explicit_of(annotation, site, Some(id.content), at);
    let subtract = subtract_of(annotation, site);
    let left = LeftModel { symbol: s, name: id, path: Seq::<StepModel>::empty() };
    let assignment = AssignmentModel {
        kind: LabelBacktraceKind::Assignment,
        rhs: rhs.0,
        known_const: rhs.1,
        simple: true,
        explicit,
        subtract,
        location,
        outside_split: outside_all(regions, previous.declared_name),
    };
    let branch = st.ctx.branches.current();
    law_annotations_label_and_revoke(
        annotation,
        site,
        Some(id.content),
        at,
        TagModel::AxisWildcard(id.content),
    );
    law_assignments_carry_tags(assignment, previous, left, branch, at);
    let after = st.binding(
        id,
        rhs,
        mutable,
        true,
        location,
        annotation,
        declared_type,
        regions,
    );
    let now = after.table.symbols[s as int];
    assert(now.value == assignment.applied(previous, left, branch, at).value);
    assert forall|x: TagModel|
        #[trigger] all_tags(now.value).contains(x) <==> gets_tag(rhs.0, branch, annotation, x)
            || outside_all(regions, previous.declared_name) && all_tags(
            previous.value,
        ).contains(x) by {
        law_annotations_label_and_revoke(annotation, site, Some(id.content), at, x);
        assert(written_tags(assignment, previous.value, branch).contains(x) <==> gets_tag(
            rhs.0,
            branch,
            annotation,
            x,
        ));
    }
}

/// Where only names are declared again that were declared before, each of them is
/// reported; where one is new, none is.
pub proof fn law_idle_redeclarations_are_reported(st: BindingState)
    requires
        st.ctx.log.listens(),
        st.ctx.log.file is Some,
    ensures
        st.any_new ==> st.concluded() == st.ctx,
        !st.any_new ==> st.concluded().log.errors.len() == st.ctx.log.errors.len()
            + st.redeclared.len(),
{
    lemma_with_errors(st.ctx.log, st.redeclared);
}

proof fn lemma_with_errors(log: LogModel, kinds: Seq<ErrorModel>)
    requires
        log.listens(),
        log.file is Some,
    ensures
        log.with_errors(kinds).listens(),
        log.with_errors(kinds).file == log.file,
        log.with_errors(kinds).errors.len() == log.errors.len() + kinds.len(),
    decreases kinds.len(),
{
    if kinds.len() > 0 {
        lemma_with_errors(log, kinds.drop_last());
    }
}

/// Whether several assignments can be made one after the other: to different
/// variables that can change and have such parts.
pub open spec fn are_possible(
    ctx: ContextModel,
    t: TableModel,
    lefts: Seq<LeftModel>,
    location: Location,
) -> bool {
    let at = PinnedModel { file: ctx.log.file->0, inner: location };
    &&& forall|i: int|
        0 <= i < lefts.len() ==> {
            let left = #[trigger] lefts[i];
            &&& left.symbol < t.symbols.len()
            &&& t.symbols[left.symbol as int].mutable
            &&& t.symbols[left.symbol as int].value.has_path(left.path, at)
            &&& value_sound(t.symbols[left.symbol as int].value)
            &&& path_sound(left.path)
        }
    &&& forall|i: int, j: int|
        0 <= i < j < lefts.len() ==> (#[trigger] lefts[i]).symbol != (#[trigger] lefts[j]).symbol
}

proof fn lemma_all_assigned(
    ctx: ContextModel,
    t: TableModel,
    lefts: Seq<LeftModel>,
    kind: LabelBacktraceKind,
    rhs: Seq<KnownModel>,
    simple: bool,
    explicit: Option<Trace>,
    subtract: Set<TagModel>,
    location: Location,
    regions: Seq<PinnedModel<Location>>,
    n: int,
)
    requires
        are_possible(ctx, t, lefts, location),
        0 <= n <= lefts.len(),
        lefts.len() == rhs.len(),
    ensures
        ({
            let (after, now) = all_assigned(
                ctx,
                t,
                lefts,
                kind,
                rhs,
                simple,
                explicit,
                subtract,
                location,
                regions,
                n,
            );
            &&& after == ctx
            &&& now.symbols.len() == t.symbols.len()
            &&& forall|i: int|
                0 <= i < t.symbols.len() && (forall|j: int|
                    0 <= j < n ==> (#[trigger] lefts[j]).symbol != i) ==> #[trigger] now.symbols[i]
                    == t.symbols[i]
            &&& forall|i: int|
                0 <= i < n ==> {
                    let left = #[trigger] lefts[i];
                    let a = assignment_of(
                        t,
                        left,
                        kind,
                        rhs[i],
                        simple,
                        explicit,
                        subtract,
                        location,
                        regions,
                    );
                    now.symbols[left.symbol as int] == a.assigned(ctx, t, left).symbols[
                        left.symbol as int]
                }
        }),
    decreases n,
{
    if n > 0 {
        lemma_all_assigned(
            ctx,
            t,
            lefts,
            kind,
            rhs,
            simple,
            explicit,
            subtract,
            location,
            regions,
            n - 1,
        );
        let left = lefts[n - 1];
        let before = all_assigned(
            ctx,
            t,
            lefts,
            kind,
            rhs,
            simple,
            explicit,
            subtract,
            location,
            regions,
            n - 1,
        ).1;
        assert(before.symbols[left.symbol as int] == t.symbols[left.symbol as int]);
    }
}

/// Of several assignments that are made at once, to different variables or to parts
/// of them, each writes the value at its own place: what is read back there has all
/// its tags, all of the branch under which that is done and all that an annotation
/// adds, but for those that one takes away; and none of the other values adds
/// anything to it.
pub proof fn law_assignments_write_their_own_values(
    ctx: ContextModel,
    t: TableModel,
    lefts: Seq<LeftModel>,
    kind: LabelBacktraceKind,
    rhs: Seq<KnownModel>,
    simple: bool,
    explicit: Option<Trace>,
    subtract: Set<TagModel>,
    location: Location,
    regions: Seq<PinnedModel<Location>>,
    i: int,
    later: PinnedModel<Location>,
)
    requires
        are_possible(ctx, t, lefts, location),
        lefts.len() == rhs.len(),
        0 <= i < lefts.len(),
        value_sound(rhs[i].0),
        explicit matches Some(x) ==> sound(x),
        ctx.branches.current() matches Some(x) ==> sound(x),
    ensures
        ({
            let (after, now) = all_assigned(
                ctx,
                t,
                lefts,
                kind,
                rhs,
                simple,
                explicit,
                subtract,
                location,
                regions,
                lefts.len() as int,
            );
            let left = lefts[i];
            let branch = label_or_bottom(ctx.branches.current());
            let before = t.symbols[left.symbol as int].value;
            let value = now.symbols[left.symbol as int].value;
            let part = value.read_along(left.path, later);
            &&& after == ctx
            &&& value_sound(value)
            &&& forall|x: TagModel|
                (all_tags(rhs[i].0).contains(x) || branch.contains(x) || label_or_bottom(
                    explicit,
                ).contains(x) || !simple && all_tags(
                    before.read_along(left.path, later),
                ).contains(x)) && !covers(subtract, x) ==> #[trigger] all_tags(part).contains(x)
            &&& all_tags(value).subset_of(
                all_tags(before).union(all_tags(rhs[i].0)).union(label_or_bottom(explicit)).union(
                    branch,
                ).union(path_tags(left.path)),
            )
        }),
{
    let left = lefts[i];
    lemma_all_assigned(
        ctx,
        t,
        lefts,
        kind,
        rhs,
        simple,
        explicit,
        subtract,
        location,
        regions,
        lefts.len() as int,
    );
    let a = assignment_of(t, left, kind, rhs[i], simple, explicit, subtract, location, regions);
    assert(assignment_sound(a, ctx, t, left));
    law_assigned_parts_carry_tags(a, ctx, t, left, later);
}

/// A name that is declared without a value stands from then on for a new variable
/// that has no tags; the blank name declares nothing.
pub proof fn law_variables_without_a_value_have_no_tags(
    ctx: ContextModel,
    t: TableModel,
    id: SpanModel,
    mutable: bool,
    declared_type: Option<TypeModel>,
    zero: Option<Seq<char>>,
)
    requires
        t.current < t.scopes.len(),
        t.symbols.len() < usize::MAX,
    ensures
        ({
            let now = zero_declared(ctx, t, seq![id], mutable, declared_type, zero, 1).1;
            let s = t.symbols.len() as int;
            &&& id.content == "_"@ ==> now == t
            &&& id.content != "_"@ ==> {
                &&& now.symbols.len() == s + 1
                &&& now.resolved(Some(now.current), id.content) == Some(s as usize)
                &&& all_tags(now.symbols[s].value) == Set::<TagModel>::empty()
                &&& now.symbols[s].mutable == mutable
                &&& now.symbols[s].known_const == zero
                &&& now.symbols[s].value.declared_type == declared_type
                &&& forall|i: int| 0 <= i < s ==> #[trigger] now.symbols[i] == t.symbols[i]
            }
        }),
{
    reveal_with_fuel(zero_declared, 2);
    let at = PinnedModel { file: ctx.log.file->0, inner: id.location };
    let blank = ValueModel { declared_type, ..ValueModel::simple(None, at) };
    lemma_simple(None, at);
    lemma_parts_of(ValueModel::simple(None, at), blank, 0);
    assert(all_tags(blank) =~= Set::<TagModel>::empty());
}

} // verus!
