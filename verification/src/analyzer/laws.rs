//! What holds of configurations, of the passes over packages, and of reports.

use vstd::prelude::*;

use crate::analyzer::convergence::{depends, imports, is_unstable, is_visited,
    law_changed_packages_are_revisited, law_importers_are_revisited, pass_completed,
    snapshots_alike, Convergence};
use crate::analyzer::directives::{said_by, said_of, DirectiveView};
use crate::analyzer::outcomes::{distinct, is_wanted, law_reports_are_complete_and_distinct, wanted};
use crate::config::AnalysisConfig;
use crate::errors::FindingModel;
use crate::insertion::entries;
use crate::labels::backtraces::label_or_bottom;
use crate::labels::written;
use crate::ordered::OrderedSet;
use crate::policy::blanket_directives::BlanketDirectiveKind;
use crate::policy::targets::{parsed_target, TargetModel};
use crate::policy::written_policy;
use crate::snapshots::{items_alike, ItemModel, SymbolTableSnapshot};
use crate::values::laws::{all_tags, tags_by_parts};
use crate::values::{values_agree, ValueModel};

verus! {

/// The entries of a configuration that make for directives of a kind.
pub open spec fn entries_for(config: AnalysisConfig, kind: BlanketDirectiveKind) -> Seq<
    (Seq<char>, Seq<Seq<char>>),
> {
    match kind {
        BlanketDirectiveKind::Source => entries(config.sources),
        BlanketDirectiveKind::Revocation => entries(config.revocations),
        BlanketDirectiveKind::AllowSink => entries(config.allow_sinks),
        BlanketDirectiveKind::DenySink => entries(config.deny_sinks),
    }
}

/// Whether a directive says what an entry of a configuration does, of a target: it
/// names the same tags, for a sink the same argument, and for what is none the same
/// results and the same condition. Only the tags of a source hold no wildcards.
pub open spec fn says_the_same(
    d: DirectiveView,
    kind: BlanketDirectiveKind,
    target: TargetModel,
    tags: Seq<Seq<char>>,
) -> bool {
    &&& d.kind == kind
    &&& kind is Source ==> d.label == written(tags)
    &&& !(kind is Source) ==> d.label == written_policy(tags)
    &&& kind is AllowSink || kind is DenySink ==> d.arg_index == target.arg_index && d.predicate
        is None && d.results == Set::<usize>::empty()
    &&& kind is Source || kind is Revocation ==> d.arg_index is None && d.predicate
        == target.predicate && d.results == target.results
}

/// Whether an entry of a configuration is about a symbol or member, and says what a
/// directive does.
pub open spec fn is_said_there(
    e: (Seq<char>, Seq<Seq<char>>),
    kind: BlanketDirectiveKind,
    package: Seq<char>,
    owner: Option<Seq<char>>,
    member: Seq<char>,
    d: DirectiveView,
) -> bool {
    parsed_target(e.0) matches Some(t) && t.package_path == package && t.owner_type == owner
        && t.member_name == member && says_the_same(d, kind, t, e.1)
}

proof fn lemma_said_of(
    kind: BlanketDirectiveKind,
    es: Seq<(Seq<char>, Seq<Seq<char>>)>,
    package: Seq<char>,
    owner: Option<Seq<char>>,
    member: Seq<char>,
    n: int,
)
    requires
        0 <= n <= es.len(),
    ensures
        forall|d: DirectiveView|
            #[trigger] said_of(kind, es, package, owner, member, n).contains(d) <==> exists|i: int|
                0 <= i < n && is_said_there(#[trigger] es[i], kind, package, owner, member, d),
    decreases n,
{
    let now = said_of(kind, es, package, owner, member, n);
    if n > 0 {
        lemma_said_of(kind, es, package, owner, member, n - 1);
        let before = said_of(kind, es, package, owner, member, n - 1);
        assert forall|d: DirectiveView|
            #[trigger] now.contains(d) <==> exists|i: int|
                0 <= i < n && is_said_there(#[trigger] es[i], kind, package, owner, member, d) by {
            if now.contains(d) {
                let j = choose|j: int| 0 <= j < now.len() && now[j] == d;
                if j < before.len() {
                    assert(before[j] == d);
                    assert(before.contains(d));
                    let i = choose|i: int|
                        0 <= i < n - 1 && is_said_there(
                            #[trigger] es[i],
                            kind,
                            package,
                            owner,
                            member,
                            d,
                        );
                    assert(is_said_there(es[i], kind, package, owner, member, d));
                } else {
                    assert(is_said_there(es[n - 1], kind, package, owner, member, d));
                }
            }
            if exists|i: int|
                0 <= i < n && is_said_there(#[trigger] es[i], kind, package, owner, member, d) {
                let i = choose|i: int|
                    0 <= i < n && is_said_there(#[trigger] es[i], kind, package, owner, member, d);
                if i < n - 1 {
                    assert(before.contains(d));
                    let j = choose|j: int| 0 <= j < before.len() && before[j] == d;
                    assert(now[j] == d);
                } else {
                    assert(now[now.len() - 1] =~= d);
                }
            }
        }
    }
}

/// A configuration says of a symbol or member just what its entries do: each entry
/// about it makes for a directive of the kind of its list, and there are no others.
pub proof fn law_configurations_say_what_they_list(
    config: AnalysisConfig,
    package: Seq<char>,
    owner: Option<Seq<char>>,
    member: Seq<char>,
    d: DirectiveView,
)
    ensures
        said_by(config, package, owner, member).contains(d) <==> exists|i: int|
            0 <= i < entries_for(config, d.kind).len() && is_said_there(
                #[trigger] entries_for(config, d.kind)[i],
                d.kind,
                package,
                owner,
                member,
                d,
            ),
{
    let s = BlanketDirectiveKind::Source;
    let r = BlanketDirectiveKind::Revocation;
    let a = BlanketDirectiveKind::AllowSink;
    let x = BlanketDirectiveKind::DenySink;
    let es = entries(config.sources);
    let er = entries(config.revocations);
    let ea = entries(config.allow_sinks);
    let ed = entries(config.deny_sinks);
    lemma_said_of(s, es, package, owner, member, es.len() as int);
    lemma_said_of(r, er, package, owner, member, er.len() as int);
    lemma_said_of(a, ea, package, owner, member, ea.len() as int);
    lemma_said_of(x, ed, package, owner, member, ed.len() as int);
    let ls = said_of(s, es, package, owner, member, es.len() as int);
    let lr = said_of(r, er, package, owner, member, er.len() as int);
    let la = said_of(a, ea, package, owner, member, ea.len() as int);
    let ld = said_of(x, ed, package, owner, member, ed.len() as int);
    lemma_in_concat(ls + lr + la, ld, d);
    lemma_in_concat(ls + lr, la, d);
    lemma_in_concat(ls, lr, d);
    assert(said_by(config, package, owner, member) == ls + lr + la + ld);
    assert(ls.contains(d) ==> d.kind == s);
    assert(lr.contains(d) ==> d.kind == r);
    assert(la.contains(d) ==> d.kind == a);
    assert(ld.contains(d) ==> d.kind == x);
    let own = entries_for(config, d.kind);
    if exists|i: int|
        0 <= i < own.len() && is_said_there(#[trigger] own[i], d.kind, package, owner, member, d) {
        let i = choose|i: int|
            0 <= i < own.len() && is_said_there(
                #[trigger] own[i],
                d.kind,
                package,
                owner,
                member,
                d,
            );
        match d.kind {
            BlanketDirectiveKind::Source => {
                assert(is_said_there(es[i], s, package, owner, member, d));
            },
            BlanketDirectiveKind::Revocation => {
                assert(is_said_there(er[i], r, package, owner, member, d));
            },
            BlanketDirectiveKind::AllowSink => {
                assert(is_said_there(ea[i], a, package, owner, member, d));
            },
            BlanketDirectiveKind::DenySink => {
                assert(is_said_there(ed[i], x, package, owner, member, d));
            },
        }
    }
    if (ls + lr + la + ld).contains(d) {
        let k = d.kind;
        assert(said_of(k, own, package, owner, member, own.len() as int).contains(d));
        let i = choose|i: int|
            0 <= i < own.len() && is_said_there(#[trigger] own[i], k, package, owner, member, d);
        assert(is_said_there(own[i], d.kind, package, owner, member, d));
    }
}

proof fn lemma_in_concat<A>(a: Seq<A>, b: Seq<A>, d: A)
    ensures
        (a + b).contains(d) <==> a.contains(d) || b.contains(d),
{
    if a.contains(d) {
        let i = choose|i: int| 0 <= i < a.len() && a[i] == d;
        assert((a + b)[i] == d);
    }
    if b.contains(d) {
        let i = choose|i: int| 0 <= i < b.len() && b[i] == d;
        assert((a + b)[i + a.len()] == d);
    }
    if (a + b).contains(d) {
        let i = choose|i: int| 0 <= i < (a + b).len() && (a + b)[i] == d;
        if i < a.len() {
            assert(a[i] == d);
        } else {
            assert(b[i - a.len()] == d);
        }
    }
}

/// Whether a package looks as it did before.
pub open spec fn is_as_before(
    before: Convergence,
    seen: Map<Seq<char>, SymbolTableSnapshot>,
    package: Seq<char>,
) -> bool {
    before.last_seen() matches Some(m) && m.dom().contains(package) && snapshots_alike(
        m[package]@,
        seen[package]@,
    )
}

/// Violations are looked for once a pass has left every package as it was before,
/// and not earlier. Until then every package that is not as it was is visited
/// again, and so is every one that imports one that is.
pub proof fn law_enforcement_waits_for_stability(
    before: Convergence,
    after: Convergence,
    seen: Map<Seq<char>, SymbolTableSnapshot>,
    graph: Map<Seq<char>, OrderedSet<String>>,
    package: Seq<char>,
    other: Seq<char>,
)
    requires
        pass_completed(before, after, seen, graph),
        before.upcoming() is StabilizeLabels,
    ensures
        after.upcoming() is EnforceSecurityPolicies <==> forall|p: Seq<char>| #[trigger]
            seen.dom().contains(p) ==> is_as_before(before, seen, p),
        after.upcoming() is EnforceSecurityPolicies || after.upcoming() is StabilizeLabels,
        seen.dom().contains(package) && !is_as_before(before, seen, package) ==> is_visited(
            after.upcoming(),
            package,
        ) && after.last_seen() == Some(seen),
        after.upcoming() is StabilizeLabels && imports(graph, other, package) && is_visited(
            after.upcoming(),
            package,
        ) ==> is_visited(after.upcoming(), other),
{
    let changed = Set::new(|q: Seq<char>| is_unstable(before.last_seen(), seen, q));
    assert forall|p: Seq<char>| #[trigger] is_unstable(before.last_seen(), seen, p)
        == (seen.dom().contains(p) && !is_as_before(before, seen, p)) by {}
    if exists|p: Seq<char>| #[trigger] is_unstable(before.last_seen(), seen, p) {
        let p = choose|p: Seq<char>| #[trigger] is_unstable(before.last_seen(), seen, p);
        assert(seen.dom().contains(p) && !is_as_before(before, seen, p));
        if seen.dom().contains(package) && !is_as_before(before, seen, package) {
            assert(is_unstable(before.last_seen(), seen, package));
            assert(changed.contains(package));
            law_changed_packages_are_revisited(graph, changed, package);
        }
        if imports(graph, other, package) && depends(graph, package, changed) {
            law_importers_are_revisited(graph, changed, other, package);
        }
    } else {
        assert forall|p: Seq<char>| #[trigger] seen.dom().contains(p) implies is_as_before(
            before,
            seen,
            p,
        ) by {
            assert(!is_unstable(before.last_seen(), seen, p));
        }
    }
}

/// Labels are assigned in all packages after all declarations are recorded, and
/// nothing is done any more after violations were looked for.
pub proof fn law_passes_follow_each_other(
    before: Convergence,
    after: Convergence,
    seen: Map<Seq<char>, SymbolTableSnapshot>,
    graph: Map<Seq<char>, OrderedSet<String>>,
    package: Seq<char>,
)
    requires
        pass_completed(before, after, seen, graph),
    ensures
        before.upcoming() is RecordDeclarations ==> after.upcoming() is StabilizeLabels
            && is_visited(after.upcoming(), package),
        before.upcoming() is EnforceSecurityPolicies ==> !is_visited(after.upcoming(), package),
{
}

proof fn lemma_agreeing_parts(a: ValueModel, b: ValueModel, exactly: bool, n: int)
    requires
        values_agree(a, b, exactly),
        0 <= n <= a.parts.len(),
    ensures
        tags_by_parts(a, n) == tags_by_parts(b, n),
    decreases a, n,
{
    if n > 0 {
        lemma_agreeing_parts(a, b, exactly, n - 1);
        assert(values_agree(a.parts[n - 1], b.parts[n - 1], exactly));
        lemma_agreeing_tags(a.parts[n - 1], b.parts[n - 1], exactly);
    }
}

pub proof fn lemma_agreeing_tags(a: ValueModel, b: ValueModel, exactly: bool)
    requires
        values_agree(a, b, exactly),
    ensures
        all_tags(a) == all_tags(b),
    decreases a, a.parts.len() + 1,
{
    lemma_agreeing_parts(a, b, exactly, a.parts.len() as int);
}

/// What looks as it did before has the tags that it had: a variable, each part of
/// it, and each result of each function that it may be.
pub proof fn law_what_is_alike_has_the_same_tags(a: ItemModel, b: ItemModel)
    requires
        items_alike(a, b),
    ensures
        a.name == b.name,
        all_tags(a.value) == all_tags(b.value),
        label_or_bottom(a.value.own) == label_or_bottom(b.value.own),
        a.value.parts.len() == b.value.parts.len(),
        forall|i: int|
            0 <= i < a.value.parts.len() ==> (#[trigger] a.value.parts[i]).key
                == b.value.parts[i].key && all_tags(a.value.parts[i]) == all_tags(
                b.value.parts[i],
            ),
        a.functions.len() == b.functions.len(),
        forall|i: int, j: int|
            #![trigger a.functions[i].outcome->0[j]]
            0 <= i < a.functions.len() && a.functions[i].outcome is Some && 0 <= j
                < a.functions[i].outcome->0.len() ==> b.functions[i].outcome is Some && j
                < b.functions[i].outcome->0.len() && all_tags(a.functions[i].outcome->0[j])
                == all_tags(b.functions[i].outcome->0[j]),
        forall|i: int|
            0 <= i < a.functions.len() ==> (#[trigger] a.functions[i]).deferred_checks.len()
                == b.functions[i].deferred_checks.len(),
{
    lemma_agreeing_tags(a.value, b.value, false);
    assert forall|i: int| 0 <= i < a.value.parts.len() implies (#[trigger] a.value.parts[i]).key
        == b.value.parts[i].key && all_tags(a.value.parts[i]) == all_tags(b.value.parts[i]) by {
        assert(values_agree(a.value.parts[i], b.value.parts[i], false));
        lemma_agreeing_tags(a.value.parts[i], b.value.parts[i], false);
    }
    assert forall|i: int, j: int|
        #![trigger a.functions[i].outcome->0[j]]
        0 <= i < a.functions.len() && a.functions[i].outcome is Some && 0 <= j
            < a.functions[i].outcome->0.len() implies b.functions[i].outcome is Some && j
        < b.functions[i].outcome->0.len() && all_tags(a.functions[i].outcome->0[j]) == all_tags(
        b.functions[i].outcome->0[j],
    ) by {
        assert(crate::taint::funcs::summaries::summaries_alike(a.functions[i], b.functions[i]));
        lemma_agreeing_tags(
            a.functions[i].outcome->0[j],
            b.functions[i].outcome->0[j],
            false,
        );
    }
}

proof fn lemma_wanted(lists: Seq<Seq<FindingModel>>, unreachable: bool, f: FindingModel)
    ensures
        wanted(lists, unreachable).contains(f) <==> is_wanted(f, unreachable) && exists|i: int|
            0 <= i < lists.len() && (#[trigger] lists[i]).contains(f),
    decreases lists.len(),
{
    if lists.len() > 0 {
        let front = lists.drop_last();
        let last = lists.last();
        lemma_wanted(front, unreachable, f);
        let kept = last.filter(|g: FindingModel| is_wanted(g, unreachable));
        lemma_in_concat(wanted(front, unreachable), kept, f);
        lemma_kept(last, unreachable, f);
        if exists|i: int| 0 <= i < lists.len() && (#[trigger] lists[i]).contains(f) {
            let i = choose|i: int| 0 <= i < lists.len() && (#[trigger] lists[i]).contains(f);
            if i < front.len() {
                assert(front[i] == lists[i]);
            } else {
                assert(lists[i] == last);
            }
        }
        if last.contains(f) {
            assert(lists[lists.len() - 1].contains(f));
        }
        if exists|i: int| 0 <= i < front.len() && (#[trigger] front[i]).contains(f) {
            let i = choose|i: int| 0 <= i < front.len() && (#[trigger] front[i]).contains(f);
            assert(lists[i] == front[i]);
        }
    }
}

proof fn lemma_kept(fs: Seq<FindingModel>, unreachable: bool, f: FindingModel)
    ensures
        fs.filter(|g: FindingModel| is_wanted(g, unreachable)).contains(f) <==> is_wanted(
            f,
            unreachable,
        ) && fs.contains(f),
    decreases fs.len(),
{
    reveal(Seq::filter);
    if fs.len() > 0 {
        let front = fs.drop_last();
        lemma_kept(front, unreachable, f);
        let before = front.filter(|g: FindingModel| is_wanted(g, unreachable));
        assert(fs =~= front.push(fs.last()));
        lemma_in_concat(front, seq![fs.last()], f);
        lemma_in_concat(before, seq![fs.last()], f);
        assert(front.push(fs.last()) =~= front + seq![fs.last()]);
        assert(before.push(fs.last()) =~= before + seq![fs.last()]);
        assert(seq![fs.last()].contains(f) <==> f == fs.last()) by {
            if f == fs.last() {
                assert(seq![fs.last()][0] == f);
            }
        }
    }
}

/// What is reported in the end is all that was found for any build permutation, and
/// nothing else, but that code that cannot be reached is only reported where that is
/// wanted. Nothing is reported twice.
pub proof fn law_reports_add_up(
    lists: Seq<Seq<FindingModel>>,
    unreachable: bool,
    f: FindingModel,
)
    ensures
        distinct(wanted(lists, unreachable)).contains(f) <==> (unreachable || !(f.kind
            is Unreachable)) && exists|i: int|
            0 <= i < lists.len() && (#[trigger] lists[i]).contains(f),
        distinct(wanted(lists, unreachable)).no_duplicates(),
{
    law_reports_are_complete_and_distinct(wanted(lists, unreachable));
    lemma_wanted(lists, unreachable, f);
}

} // verus!
