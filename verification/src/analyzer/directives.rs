//! Blanket directives of an analysis.

use vstd::prelude::*;

use crate::analyzer::Analyzer;
use crate::ast::text_refs;
use crate::config::AnalysisConfig;
use crate::insertion::{count_entries, entries, entry_at};
use crate::labels::tags::TagModel;
use crate::labels::{written, Label};
use crate::ordered::OrderedMap;
use crate::policy::blanket_directives::{BlanketDirective, BlanketDirectiveKind,
    PackageBlanketDirectives};
use crate::policy::targets::{parsed_target, BlanketDirectiveTarget, TargetModel};
use crate::policy::written_policy;

verus! {

/// What a directive says.
#[verifier::ext_equal]
pub struct DirectiveView {
    pub kind: BlanketDirectiveKind,
    pub label: Set<TagModel>,
    pub results: Set<usize>,
    pub arg_index: Option<usize>,
    pub predicate: Option<(usize, Seq<char>, bool)>,
}

/// What a directive says.
pub open spec fn view_of(d: BlanketDirective) -> DirectiveView {
    DirectiveView {
        kind: d@.kind,
        label: d@.label,
        results: d@.result_selector,
        arg_index: d@.arg_index,
        predicate: d@.predicate,
    }
}

/// What several directives say.
pub open spec fn views_of(s: Seq<BlanketDirective>) -> Seq<DirectiveView> {
    s.map_values(|d: BlanketDirective| view_of(d))
}

/// What a directive for a target says. Sinks know neither a condition nor
/// single results, and only sinks know single arguments.
pub open spec fn directive_from(
    kind: BlanketDirectiveKind,
    target: TargetModel,
    label: Set<TagModel>,
) -> DirectiveView {
    DirectiveView {
        kind,
        label,
        results: if kind.is_sink() {
            Set::<usize>::empty()
        } else {
            target.results
        },
        arg_index: if kind.is_sink() {
            target.arg_index
        } else {
            None
        },
        predicate: if kind.is_sink() {
            None
        } else {
            target.predicate
        },
    }
}

/// What the tags of a directive stand for. Only a source names no wildcards.
pub open spec fn directive_label(
    kind: BlanketDirectiveKind,
    tags: Seq<Seq<char>>,
) -> Set<TagModel> {
    if kind is Source {
        written(tags)
    } else {
        written_policy(tags)
    }
}

/// Whether a target is a symbol of a package, or a member of one of its types.
pub open spec fn is_meant(
    target: TargetModel,
    package_path: Seq<char>,
    owner_type: Option<Seq<char>>,
    member_name: Seq<char>,
) -> bool {
    target.package_path == package_path && target.owner_type == owner_type && target.member_name
        == member_name
}

/// What the first entries of a configuration say of a symbol or member.
pub open spec fn said_of(
    kind: BlanketDirectiveKind,
    es: Seq<(Seq<char>, Seq<Seq<char>>)>,
    package_path: Seq<char>,
    owner_type: Option<Seq<char>>,
    member_name: Seq<char>,
    n: int,
) -> Seq<DirectiveView>
    decreases n,
{
    if n <= 0 {
        Seq::<DirectiveView>::empty()
    } else {
        let before = said_of(kind, es, package_path, owner_type, member_name, n - 1);
        match parsed_target(es[n - 1].0) {
            Some(t) => if is_meant(t, package_path, owner_type, member_name) {
                before.push(directive_from(kind, t, directive_label(kind, es[n - 1].1)))
            } else {
                before
            },
            None => before,
        }
    }
}

/// What a configuration says of a symbol or member.
pub open spec fn said_by(
    config: AnalysisConfig,
    package_path: Seq<char>,
    owner_type: Option<Seq<char>>,
    member_name: Seq<char>,
) -> Seq<DirectiveView> {
    let p = package_path;
    let t = owner_type;
    let m = member_name;
    let sources = entries(config.sources);
    let revocations = entries(config.revocations);
    let allow = entries(config.allow_sinks);
    let deny = entries(config.deny_sinks);
    said_of(BlanketDirectiveKind::Source, sources, p, t, m, sources.len() as int) + said_of(
        BlanketDirectiveKind::Revocation,
        revocations,
        p,
        t,
        m,
        revocations.len() as int,
    ) + said_of(BlanketDirectiveKind::AllowSink, allow, p, t, m, allow.len() as int) + said_of(
        BlanketDirectiveKind::DenySink,
        deny,
        p,
        t,
        m,
        deny.len() as int,
    )
}

/// Whether all targets of a configuration can be read.
pub open spec fn can_be_read(es: Seq<(Seq<char>, Seq<Seq<char>>)>) -> bool {
    forall|i: int| 0 <= i < es.len() ==> parsed_target((#[trigger] es[i]).0) is Some
}

fn first_malformed(m: &indexmap::IndexMap<String, Vec<String>>) -> (r: Option<String>)
    ensures
        r is None <==> can_be_read(entries(*m)),
        r matches Some(t) ==> parsed_target(t@) is None && exists|i: int|
            0 <= i < entries(*m).len() && (#[trigger] entries(*m)[i]).0 == t@,
{
    let n: usize = count_entries(m);
    let mut i: usize = 0;
    while i < n
        invariant
            i <= n,
            n == entries(*m).len(),
            forall|k: int| 0 <= k < i ==> parsed_target((#[trigger] entries(*m)[k]).0) is Some,
        decreases n - i,
    {
        if let Some((target, _)) = entry_at(m, i) {
            if BlanketDirectiveTarget::parse(target.as_str()).is_none() {
                proof {
                    assert(entries(*m)[i as int].0 == target@);
                }
                return Some(target.clone());
            }
        }
        i = i + 1;
    }
    None
}

impl Analyzer {
    /// Adds a directive for a target.
    fn add_blanket_directive(
        &mut self,
        kind: BlanketDirectiveKind,
        target: BlanketDirectiveTarget,
        label: Label,
    )
        requires
            label.wf(),
        ensures
            final(self).same_but_directives(old(self)),
            forall|p: Seq<char>, t: Option<Seq<char>>, m: Seq<char>|
                views_of(#[trigger] final(self).directives_for(p, t, m)) == if is_meant(
                    target@,
                    p,
                    t,
                    m,
                ) {
                    views_of(old(self).directives_for(p, t, m)).push(
                        directive_from(kind, target@, label@),
                    )
                } else {
                    views_of(old(self).directives_for(p, t, m))
                },
    {
        proof {
            use_type_invariant(&*self);
        }
        let ghost before = self.blanket_directives@;
        let ghost tm = target@;
        let ghost lm = label@;
        let directive = BlanketDirective::new(
            kind,
            target.result_selector,
            target.arg_index,
            target.arg_predicate,
            label,
        );
        let ghost d = directive;
        let mut all: OrderedMap<String, PackageBlanketDirectives> = OrderedMap::new();
        std::mem::swap(&mut all, &mut self.blanket_directives);
        let mut package = match all.remove(&target.package_path) {
            Some(p) => p,
            None => PackageBlanketDirectives::new(),
        };
        let ghost held = package;
        package.push(target.owner_type, target.member_name, directive);
        let ghost now = package;
        all.insert(target.package_path, package);
        self.blanket_directives = all;
        proof {
            assert(view_of(d) =~= directive_from(kind, tm, lm));
            assert forall|p: Seq<char>, t: Option<Seq<char>>, m: Seq<char>|
                views_of(#[trigger] self.directives_for(p, t, m)) == if is_meant(tm, p, t, m) {
                    views_of(old(self).directives_for(p, t, m)).push(directive_from(kind, tm, lm))
                } else {
                    views_of(old(self).directives_for(p, t, m))
                } by {
                let old_list = old(self).directives_for(p, t, m);
                if p == tm.package_path {
                    let known = held.has(t, m);
                    assert(held.at(t, m) == old_list);
                    if t == tm.owner_type && m == tm.member_name {
                        assert(now.at(t, m) == old_list.push(d));
                        assert(views_of(old_list.push(d)) =~= views_of(old_list).push(view_of(d)));
                    } else {
                        assert(now.has(t, m) == held.has(t, m));
                    }
                }
            }
        }
    }

    fn add_entries(
        &mut self,
        kind: BlanketDirectiveKind,
        map: &indexmap::IndexMap<String, Vec<String>>,
    )
        ensures
            final(self).same_but_directives(old(self)),
            forall|p: Seq<char>, t: Option<Seq<char>>, m: Seq<char>|
                views_of(#[trigger] final(self).directives_for(p, t, m)) == views_of(
                    old(self).directives_for(p, t, m),
                ) + said_of(kind, entries(*map), p, t, m, entries(*map).len() as int),
    {
        let ghost start = *self;
        let ghost es = entries(*map);
        let n: usize = count_entries(map);
        let mut i: usize = 0;
        proof {
            assert forall|p: Seq<char>, t: Option<Seq<char>>, m: Seq<char>|
                views_of(#[trigger] self.directives_for(p, t, m)) == views_of(
                    start.directives_for(p, t, m),
                ) + said_of(kind, es, p, t, m, 0) by {
                assert(views_of(start.directives_for(p, t, m)) + Seq::<DirectiveView>::empty()
                    =~= views_of(start.directives_for(p, t, m)));
            }
        }
        while i < n
            invariant
                i <= n,
                n == es.len(),
                es == entries(*map),
                self.same_but_directives(&start),
                forall|p: Seq<char>, t: Option<Seq<char>>, m: Seq<char>|
                    views_of(#[trigger] self.directives_for(p, t, m)) == views_of(
                        start.directives_for(p, t, m),
                    ) + said_of(kind, es, p, t, m, i as int),
            decreases n - i,
        {
            if let Some((text, tags)) = entry_at(map, i) {
                let ghost held = *self;
                if let Some(target) = BlanketDirectiveTarget::parse(text.as_str()) {
                    let mut label = Label::from_tags(text_refs(tags));
                    match kind {
                        BlanketDirectiveKind::Source => {},
                        _ => {
                            label.accept_wildcards();
                        },
                    }
                    let ghost tm = target@;
                    proof {
                        assert(label@ == directive_label(kind, es[i as int].1));
                    }
                    self.add_blanket_directive(kind, target, label);
                    proof {
                        assert forall|p: Seq<char>, t: Option<Seq<char>>, m: Seq<char>|
                            views_of(#[trigger] self.directives_for(p, t, m)) == views_of(
                                start.directives_for(p, t, m),
                            ) + said_of(kind, es, p, t, m, i + 1) by {
                            let a = views_of(start.directives_for(p, t, m));
                            let b = said_of(kind, es, p, t, m, i as int);
                            assert(views_of(held.directives_for(p, t, m)) == a + b);
                            if is_meant(tm, p, t, m) {
                                let d = directive_from(
                                    kind,
                                    tm,
                                    directive_label(kind, es[i as int].1),
                                );
                                assert((a + b).push(d) =~= a + b.push(d));
                            }
                        }
                    }
                }
            }
            i = i + 1;
        }
    }

    /// Applies a configuration. One with a target that cannot be read changes
    /// nothing, and the target is returned.
    pub fn ingest_structured_config(&mut self, config: &AnalysisConfig) -> (r: Result<(), String>)
        ensures
            r is Ok <==> can_be_read(entries(config.sources)) && can_be_read(
                entries(config.revocations),
            ) && can_be_read(entries(config.allow_sinks)) && can_be_read(
                entries(config.deny_sinks),
            ),
            r matches Err(t) ==> parsed_target(t@) is None && *final(self) == *old(self),
            final(self).base() == old(self).base(),
            final(self).listed() == old(self).listed(),
            r is Ok ==> {
                &&& final(self).says_more() == (old(self).says_more() || config.verbose)
                &&& final(self).wants_tests() == config.include_tests
                &&& final(self).permutation_limit() == config.max_build_permutations
                &&& final(self).wants_unreachable() == config.report_unreachable
                &&& forall|p: Seq<char>, t: Option<Seq<char>>, m: Seq<char>|
                    views_of(#[trigger] final(self).directives_for(p, t, m)) == views_of(
                        old(self).directives_for(p, t, m),
                    ) + said_by(*config, p, t, m)
            },
    {
        if let Some(t) = first_malformed(&config.sources) {
            return Err(t);
        }
        if let Some(t) = first_malformed(&config.revocations) {
            return Err(t);
        }
        if let Some(t) = first_malformed(&config.allow_sinks) {
            return Err(t);
        }
        if let Some(t) = first_malformed(&config.deny_sinks) {
            return Err(t);
        }
        proof {
            use_type_invariant(&*self);
        }
        let ghost start = *self;
        if !self.verbose {
            self.verbose = config.verbose;
        }
        self.include_tests = config.include_tests;
        self.max_build_permutations = config.max_build_permutations;
        self.report_unreachable = config.report_unreachable;
        self.add_entries(BlanketDirectiveKind::Source, &config.sources);
        let ghost one = *self;
        self.add_entries(BlanketDirectiveKind::Revocation, &config.revocations);
        let ghost two = *self;
        self.add_entries(BlanketDirectiveKind::AllowSink, &config.allow_sinks);
        let ghost three = *self;
        self.add_entries(BlanketDirectiveKind::DenySink, &config.deny_sinks);
        proof {
            assert forall|p: Seq<char>, t: Option<Seq<char>>, m: Seq<char>|
                views_of(#[trigger] self.directives_for(p, t, m)) == views_of(
                    start.directives_for(p, t, m),
                ) + said_by(*config, p, t, m) by {
                let s = entries(config.sources);
                let v = entries(config.revocations);
                let w = entries(config.allow_sinks);
                let d = entries(config.deny_sinks);
                let z = views_of(start.directives_for(p, t, m));
                let a = said_of(BlanketDirectiveKind::Source, s, p, t, m, s.len() as int);
                let b = said_of(BlanketDirectiveKind::Revocation, v, p, t, m, v.len() as int);
                let c = said_of(BlanketDirectiveKind::AllowSink, w, p, t, m, w.len() as int);
                let e = said_of(BlanketDirectiveKind::DenySink, d, p, t, m, d.len() as int);
                assert(views_of(one.directives_for(p, t, m)) == z + a);
                assert(views_of(two.directives_for(p, t, m)) == z + a + b);
                assert(views_of(three.directives_for(p, t, m)) == z + a + b + c);
                assert(z + a + b + c + e =~= z + (a + b + c + e));
            }
        }
        Ok(())
    }

    /// Makes a symbol, or a member of a type, a source of a label.
    pub fn add_blanket_source(
        &mut self,
        package_path: &str,
        owner_type: Option<&str>,
        member_name: &str,
        label: &Label,
    )
        requires
            label.wf(),
        ensures
            final(self).same_but_directives(old(self)),
            forall|p: Seq<char>, t: Option<Seq<char>>, m: Seq<char>|
                views_of(#[trigger] final(self).directives_for(p, t, m)) == if p == package_path@
                    && t == (match owner_type {
                    Some(x) => Some(x@),
                    None => None,
                }) && m == member_name@ {
                    views_of(old(self).directives_for(p, t, m)).push(
                        DirectiveView {
                            kind: BlanketDirectiveKind::Source,
                            label: label@,
                            results: Set::<usize>::empty(),
                            arg_index: None,
                            predicate: None,
                        },
                    )
                } else {
                    views_of(old(self).directives_for(p, t, m))
                },
    {
        let owner = match owner_type {
            Some(t) => Some(t.to_owned()),
            None => None,
        };
        let target = BlanketDirectiveTarget::new(
            package_path.to_owned(),
            owner,
            member_name.to_owned(),
            None,
        );
        self.add_blanket_directive(BlanketDirectiveKind::Source, target, label.clone());
    }

    /// Makes a target a sink that lists what it allows, or what it denies.
    pub fn add_blanket_sink(
        &mut self,
        target: BlanketDirectiveTarget,
        allow: bool,
        label: &Label,
    )
        requires
            label.wf(),
        ensures
            final(self).same_but_directives(old(self)),
            forall|p: Seq<char>, t: Option<Seq<char>>, m: Seq<char>|
                views_of(#[trigger] final(self).directives_for(p, t, m)) == if is_meant(
                    target@,
                    p,
                    t,
                    m,
                ) {
                    views_of(old(self).directives_for(p, t, m)).push(
                        directive_from(
                            if allow {
                                BlanketDirectiveKind::AllowSink
                            } else {
                                BlanketDirectiveKind::DenySink
                            },
                            target@,
                            label@,
                        ),
                    )
                } else {
                    views_of(old(self).directives_for(p, t, m))
                },
    {
        let kind = if allow {
            BlanketDirectiveKind::AllowSink
        } else {
            BlanketDirectiveKind::DenySink
        };
        self.add_blanket_directive(kind, target, label.clone());
    }

    /// Whether any directive makes a target a sink.
    pub open spec fn has_sinks(&self) -> bool {
        exists|p: Seq<char>, t: Option<Seq<char>>, m: Seq<char>, i: int|
            0 <= i < self.directives_for(p, t, m).len() && (#[trigger] self.directives_for(
                p,
                t,
                m,
            )[i])@.kind.is_sink()
    }

    /// The directives for a symbol of a package, or for a member of one of its
    /// types, if there are any.
    pub fn blanket_directives_for(
        &self,
        package_path: &str,
        owner_type: Option<&str>,
        member_name: &str,
    ) -> (r: Option<&Vec<BlanketDirective>>)
        ensures
            (match r {
                Some(v) => v@,
                None => Seq::<BlanketDirective>::empty(),
            }) == self.directives_for(
                package_path@,
                match owner_type {
                    Some(t) => Some(t@),
                    None => None,
                },
                member_name@,
            ),
    {
        match self.blanket_directives.get(&package_path.to_owned()) {
            Some(of_package) => of_package.get(owner_type, member_name),
            None => None,
        }
    }

    /// Whether any directive makes a target a sink.
    pub fn has_blanket_enforcement_checks(&self) -> (r: bool)
        ensures
            r == self.has_sinks(),
    {
        let n: usize = self.blanket_directives.len();
        let ghost paths = self.blanket_directives.listing();
        let mut i: usize = 0;
        while i < n
            invariant
                i <= n,
                n == paths.len(),
                paths == self.blanket_directives.listing(),
                forall|x: Seq<char>| #[trigger]
                    self.blanket_directives@.dom().contains(x) == paths.contains(x),
                forall|k: int, t: Option<Seq<char>>, m: Seq<char>, j: int|
                    0 <= k < i && 0 <= j < self.directives_for(paths[k], t, m).len()
                        ==> !(#[trigger] self.directives_for(paths[k], t, m)[j])@.kind.is_sink(),
            decreases n - i,
        {
            let package = self.blanket_directives.value_at(i);
            let ghost path = paths[i as int];
            proof {
                assert(paths.contains(path));
                assert(self.blanket_directives@.dom().contains(path));
            }
            let all = package.iter();
            let m: usize = all.len();
            let mut j: usize = 0;
            while j < m
                invariant
                    j <= m,
                    m == all@.len(),
                    *package == self.blanket_directives@[path],
                    self.blanket_directives@.dom().contains(path),
                    forall|d: BlanketDirective| package.lists(d) <==> #[trigger] all@.contains(&d),
                    forall|k: int| 0 <= k < j ==> !(#[trigger] all@[k])@.kind.is_sink(),
                decreases m - j,
            {
                let is_sink = match all[j].kind() {
                    BlanketDirectiveKind::AllowSink | BlanketDirectiveKind::DenySink => true,
                    _ => false,
                };
                if is_sink {
                    proof {
                        let d = *all@[j as int];
                        assert(all@.contains(&d));
                        assert(package.lists(d));
                        let (t, m) = choose|t: Option<Seq<char>>, m: Seq<char>| #[trigger]
                            package.at(t, m).contains(d);
                        let list = self.directives_for(path, t, m);
                        assert(list == package.at(t, m));
                        let k = choose|k: int| 0 <= k < list.len() && list[k] == d;
                        assert(self.directives_for(path, t, m)[k]@.kind.is_sink());
                    }
                    return true;
                }
                j = j + 1;
            }
            proof {
                assert forall|t: Option<Seq<char>>, m: Seq<char>, k: int|
                    0 <= k < self.directives_for(path, t, m).len() implies !(
                #[trigger] self.directives_for(path, t, m)[k])@.kind.is_sink() by {
                    let d = self.directives_for(path, t, m)[k];
                    assert(package.at(t, m)[k] == d);
                    assert(package.at(t, m).contains(d));
                    assert(package.lists(d));
                    assert(all@.contains(&d));
                    let q = choose|q: int| 0 <= q < all@.len() && all@[q] == &d;
                    assert(!all@[q]@.kind.is_sink());
                }
            }
            i = i + 1;
        }
        proof {
            if self.has_sinks() {
                let (p, t, m, k) = choose|p: Seq<char>, t: Option<Seq<char>>, m: Seq<char>, k: int|
                    0 <= k < self.directives_for(p, t, m).len() && (#[trigger] self.directives_for(
                        p,
                        t,
                        m,
                    )[k])@.kind.is_sink();
                assert(self.blanket_directives@.dom().contains(p));
                assert(paths.contains(p));
                let q = choose|q: int| 0 <= q < paths.len() && paths[q] == p;
                assert(!self.directives_for(paths[q], t, m)[k]@.kind.is_sink());
            }
        }
        false
    }
}

/// Registering a label for a source twice, with one part each, is like
/// registering it once with both: the labels add up where they are applied.
pub proof fn law_sources_accumulate(
    a: Set<TagModel>,
    b: Set<TagModel>,
    before: Seq<Set<TagModel>>,
)
    ensures
        crate::labels::summed(before.push(a).push(b)) == crate::labels::summed(
            before.push(crate::labels::joined(a, b)),
        ),
{
    let x = crate::labels::summed(before);
    assert(before.push(a).drop_last() =~= before);
    assert(before.push(a).push(b).drop_last() =~= before.push(a));
    assert(before.push(crate::labels::joined(a, b)).drop_last() =~= before);
    assert(crate::labels::summed(before.push(a)) == crate::labels::joined(x, a));
    crate::labels::laws::law_union(x, a, b);
}

} // verus!
