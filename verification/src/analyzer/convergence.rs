//! Going through packages until nothing changes any more.

use vstd::prelude::*;

use crate::ordered::{Ordered, OrderedMap, OrderedSet};
use crate::snapshots::{items_alike, ItemModel, SymbolTableSnapshot};

verus! {

/// Whether a package imports another one.
pub open spec fn imports(
    graph: Map<Seq<char>, OrderedSet<String>>,
    package: Seq<char>,
    other: Seq<char>,
) -> bool {
    graph.dom().contains(package) && graph[package]@.contains(other)
}

/// Whether a package is one of some, or imports one of them, directly or over
/// at most so many others.
pub open spec fn depends_within(
    graph: Map<Seq<char>, OrderedSet<String>>,
    package: Seq<char>,
    targets: Set<Seq<char>>,
    n: nat,
) -> bool
    decreases n,
{
    ||| targets.contains(package)
    ||| n > 0 && exists|other: Seq<char>| #[trigger]
        imports(graph, package, other) && depends_within(graph, other, targets, (n - 1) as nat)
}

/// Whether a package is one of some, or imports one of them, directly or not.
pub open spec fn depends(
    graph: Map<Seq<char>, OrderedSet<String>>,
    package: Seq<char>,
    targets: Set<Seq<char>>,
) -> bool {
    exists|n: nat| depends_within(graph, package, targets, n)
}

/// Whether a set holds every package that imports one of its packages.
pub open spec fn is_closed_under(
    graph: Map<Seq<char>, OrderedSet<String>>,
    set: Set<Seq<char>>,
) -> bool {
    forall|package: Seq<char>, other: Seq<char>| #[trigger]
        imports(graph, package, other) && set.contains(other) ==> set.contains(package)
}

proof fn lemma_closed_set_has_dependents(
    graph: Map<Seq<char>, OrderedSet<String>>,
    set: Set<Seq<char>>,
    targets: Set<Seq<char>>,
    package: Seq<char>,
    n: nat,
)
    requires
        is_closed_under(graph, set),
        targets.subset_of(set),
        depends_within(graph, package, targets, n),
    ensures
        set.contains(package),
    decreases n,
{
    if !targets.contains(package) {
        let other = choose|other: Seq<char>| #[trigger]
            imports(graph, package, other) && depends_within(
                graph,
                other,
                targets,
                (n - 1) as nat,
            );
        lemma_closed_set_has_dependents(graph, set, targets, other, (n - 1) as nat);
    }
}

fn imports_any(of: &OrderedSet<String>, set: &OrderedSet<String>) -> (r: bool)
    ensures
        r == exists|x: Seq<char>| #[trigger] of@.contains(x) && set@.contains(x),
{
    let n: usize = of.len();
    let ghost all = of.listing();
    let mut i: usize = 0;
    while i < n
        invariant
            i <= n,
            n == all.len(),
            all == of.listing(),
            of@ == all.to_set(),
            forall|k: int| 0 <= k < i ==> !set@.contains(#[trigger] all[k]),
        decreases n - i,
    {
        let x = of.at(i);
        if set.contains(x) {
            proof {
                assert(of@.contains(x@) && set@.contains(x@));
            }
            return true;
        }
        i = i + 1;
    }
    proof {
        assert forall|x: Seq<char>| #[trigger] of@.contains(x) implies !set@.contains(x) by {
            assert(all.contains(x));
            let k = choose|k: int| 0 <= k < all.len() && all[k] == x;
            assert(!set@.contains(all[k]));
        }
    }
    false
}

/// How many of the packages up to a position are not in a set.
spec fn missing(keys: Seq<Seq<char>>, set: Set<Seq<char>>, n: int) -> nat
    decreases n,
{
    if n <= 0 {
        0
    } else {
        missing(keys, set, n - 1) + if set.contains(keys[n - 1]) {
            0nat
        } else {
            1nat
        }
    }
}

proof fn lemma_missing_falls(keys: Seq<Seq<char>>, a: Set<Seq<char>>, x: Seq<char>, n: int, at: int)
    requires
        0 <= n <= keys.len(),
        !a.contains(x),
        0 <= at < keys.len(),
        keys[at] == x,
    ensures
        missing(keys, a.insert(x), n) <= missing(keys, a, n),
        at < n ==> missing(keys, a.insert(x), n) < missing(keys, a, n),
    decreases n,
{
    if n > 0 {
        lemma_missing_falls(keys, a, x, n - 1, at);
    }
}

/// Some packages, and all that import them, directly or not.
pub fn reverse_transitive_dependencies(
    graph: &OrderedMap<String, OrderedSet<String>>,
    unstable: &OrderedSet<String>,
) -> (r: OrderedSet<String>)
    ensures
        forall|p: Seq<char>| #[trigger] r@.contains(p) <==> depends(graph@, p, unstable@),
{
    let mut set = unstable.duplicate();
    let n: usize = graph.len();
    let ghost keys = graph.listing();
    proof {
        assert forall|p: Seq<char>| #[trigger] set@.contains(p) implies depends(
            graph@,
            p,
            unstable@,
        ) by {
            assert(depends_within(graph@, p, unstable@, 0));
        }
    }
    let mut changed = true;
    while changed
        invariant
            n == keys.len(),
            keys == graph.listing(),
            forall|x: Seq<char>| #[trigger] graph@.dom().contains(x) == keys.contains(x),
            unstable@.subset_of(set@),
            forall|p: Seq<char>| #[trigger] set@.contains(p) ==> depends(graph@, p, unstable@),
            !changed ==> is_closed_under(graph@, set@),
        decreases missing(keys, set@, n as int), (if changed { 1int } else { 0int }),
    {
        changed = false;
        let ghost start = set@;
        let mut i: usize = 0;
        while i < n
            invariant
                i <= n,
                n == keys.len(),
                keys == graph.listing(),
                forall|x: Seq<char>| #[trigger] graph@.dom().contains(x) == keys.contains(x),
                unstable@.subset_of(set@),
                forall|p: Seq<char>| #[trigger] set@.contains(p) ==> depends(graph@, p, unstable@),
                !changed ==> set@ == start,
                changed ==> missing(keys, set@, n as int) < missing(keys, start, n as int),
                !changed ==> forall|k: int, other: Seq<char>|
                    0 <= k < i && #[trigger] imports(graph@, keys[k], other) && start.contains(
                        other,
                    ) ==> start.contains(keys[k]),
            decreases n - i,
        {
            let package = graph.key_at(i);
            let ghost p = keys[i as int];
            proof {
                assert(keys.contains(p));
                assert(graph@.dom().contains(p));
            }
            if !set.contains(package) {
                let of = graph.value_at(i);
                if imports_any(of, &set) {
                    proof {
                        let x = choose|x: Seq<char>| #[trigger] of@.contains(x) && set@.contains(x);
                        assert(imports(graph@, p, x));
                        assert(depends(graph@, x, unstable@));
                        let k = choose|k: nat| depends_within(graph@, x, unstable@, k);
                        assert(depends_within(graph@, p, unstable@, k + 1));
                        lemma_missing_falls(keys, set@, p, n as int, i as int);
                    }
                    set.insert(package.clone());
                    changed = true;
                } else {
                    proof {
                        assert forall|other: Seq<char>| #[trigger]
                            imports(graph@, p, other) implies !set@.contains(other) by {
                            assert(of@.contains(other));
                        }
                    }
                }
            }
            i = i + 1;
        }
        proof {
            if !changed {
                assert forall|package: Seq<char>, other: Seq<char>| #[trigger]
                    imports(graph@, package, other) && set@.contains(other) implies set@.contains(
                    package,
                ) by {
                    assert(keys.contains(package));
                    let k = choose|k: int| 0 <= k < keys.len() && keys[k] == package;
                    assert(imports(graph@, keys[k], other));
                }
            }
        }
    }
    proof {
        assert forall|p: Seq<char>| depends(graph@, p, unstable@) implies set@.contains(p) by {
            let k = choose|k: nat| depends_within(graph@, p, unstable@, k);
            lemma_closed_set_has_dependents(graph@, set@, unstable@, p, k);
        }
    }
    set
}

/// Whether two snapshots differ in nothing that matters.
pub open spec fn snapshots_alike(a: Seq<ItemModel>, b: Seq<ItemModel>) -> bool {
    a.len() == b.len() && forall|i: int|
        0 <= i < a.len() ==> items_alike(#[trigger] a[i], b[i])
}

/// Whether a package is not known to be as it was before.
pub open spec fn is_unstable(
    previous: Option<Map<Seq<char>, SymbolTableSnapshot>>,
    current: Map<Seq<char>, SymbolTableSnapshot>,
    package: Seq<char>,
) -> bool {
    &&& current.dom().contains(package)
    &&& previous matches Some(before) ==> !(before.dom().contains(package) && snapshots_alike(
        before[package]@,
        current[package]@,
    ))
}

/// The packages that changed since the snapshots before; all if there are none.
pub fn unstable_packages(
    previous: Option<&OrderedMap<String, SymbolTableSnapshot>>,
    current: &OrderedMap<String, SymbolTableSnapshot>,
) -> (r: OrderedSet<String>)
    ensures
        forall|p: Seq<char>| #[trigger]
            r@.contains(p) <==> is_unstable(
                match previous {
                    Some(m) => Some(m@),
                    None => None,
                },
                current@,
                p,
            ),
{
    let mut r: OrderedSet<String> = OrderedSet::new();
    let n: usize = current.len();
    let ghost keys = current.listing();
    let ghost before = match previous {
        Some(m) => Some(m@),
        None => None,
    };
    let mut i: usize = 0;
    while i < n
        invariant
            i <= n,
            n == keys.len(),
            keys == current.listing(),
            before == (match previous {
                Some(m) => Some(m@),
                None => None,
            }),
            forall|x: Seq<char>| #[trigger] current@.dom().contains(x) == keys.contains(x),
            forall|p: Seq<char>| #[trigger]
                r@.contains(p) ==> is_unstable(before, current@, p),
            forall|k: int|
                0 <= k < i && is_unstable(before, current@, #[trigger] keys[k]) ==> r@.contains(
                    keys[k],
                ),
        decreases n - i,
    {
        let package = current.key_at(i);
        let now = current.value_at(i);
        proof {
            assert(keys.contains(keys[i as int]));
            assert(current@.dom().contains(package@));
        }
        let stable = match previous {
            Some(m) => match m.get(package) {
                Some(then) => then.same_as(now),
                None => false,
            },
            None => false,
        };
        if !stable {
            r.insert(package.clone());
        }
        i = i + 1;
    }
    proof {
        assert forall|p: Seq<char>| is_unstable(before, current@, p) implies r@.contains(p) by {
            assert(keys.contains(p));
            let k = choose|k: int| 0 <= k < keys.len() && keys[k] == p;
            assert(is_unstable(before, current@, keys[k]));
        }
    }
    r
}

/// What to do next in an analysis.
#[derive(Debug)]
pub enum NextPass {
    /// Visit all packages, to record declarations.
    RecordDeclarations,
    /// Visit these packages, or all, to assign labels.
    StabilizeLabels(Option<OrderedSet<String>>),
    /// Visit all packages, to look for violations.
    EnforceSecurityPolicies,
    /// Nothing: the analysis is complete.
    Finished,
}

/// Whether a package is visited in a pass.
pub open spec fn is_visited(next: NextPass, package_path: Seq<char>) -> bool {
    match next {
        NextPass::StabilizeLabels(Some(worklist)) => worklist@.contains(package_path),
        NextPass::Finished => false,
        _ => true,
    }
}

/// How far an analysis has come.
#[derive(Debug)]
pub struct Convergence {
    next: NextPass,
    previous: Option<OrderedMap<String, SymbolTableSnapshot>>,
    iteration_index: u8,
}

/// How far an analysis has come once a pass is complete, given what the packages
/// then looked like, and which packages each of them imports. After a pass that
/// assigned labels, that decides: if nothing changed, violations are looked for
/// next; else, the packages that changed, and all that import them, directly or
/// not, are visited again.
pub open spec fn pass_completed(
    before: Convergence,
    after: Convergence,
    seen: Map<Seq<char>, SymbolTableSnapshot>,
    graph: Map<Seq<char>, OrderedSet<String>>,
) -> bool {
    match before.upcoming() {
        NextPass::RecordDeclarations => {
            &&& after.upcoming() matches NextPass::StabilizeLabels(w) && w is None
            &&& after.last_seen() == before.last_seen()
            &&& after.iterations() == before.iterations()
        },
        NextPass::StabilizeLabels(_) => if exists|p: Seq<char>| #[trigger]
            is_unstable(before.last_seen(), seen, p) {
            &&& after.upcoming() matches NextPass::StabilizeLabels(Some(w))
                && forall|p: Seq<char>| #[trigger]
                w@.contains(p) <==> depends(
                    graph,
                    p,
                    Set::new(
                        |q: Seq<char>| is_unstable(before.last_seen(), seen, q),
                    ),
                )
            &&& after.last_seen() == Some(seen)
            &&& after.iterations() == if before.iterations() == u8::MAX {
                0
            } else {
                (before.iterations() + 1) as u8
            }
        } else {
            &&& after.upcoming() is EnforceSecurityPolicies
            &&& after.last_seen() == before.last_seen()
            &&& after.iterations() == before.iterations()
        },
        _ => {
            &&& after.upcoming() is Finished
            &&& after.last_seen() == before.last_seen()
            &&& after.iterations() == before.iterations()
        },
    }
}

impl Convergence {
    /// What to do next.
    pub closed spec fn upcoming(&self) -> NextPass {
        self.next
    }

    /// The snapshots after the last pass that assigned labels.
    pub closed spec fn last_seen(&self) -> Option<Map<Seq<char>, SymbolTableSnapshot>> {
        match self.previous {
            Some(m) => Some(m@),
            None => None,
        }
    }

    /// How many passes changed something, up to wrapping around.
    pub closed spec fn iterations(&self) -> u8 {
        self.iteration_index
    }

    /// An analysis that has not begun.
    pub fn new() -> (r: Self)
        ensures
            r.upcoming() is RecordDeclarations,
            r.last_seen() is None,
            r.iterations() == 0,
    {
        Convergence { next: NextPass::RecordDeclarations, previous: None, iteration_index: 0 }
    }

    /// What to do next.
    pub fn next_pass(&self) -> (r: &NextPass)
        ensures
            *r == self.upcoming(),
    {
        &self.next
    }

    /// Whether a package is to be visited in the next pass.
    pub fn visits(&self, package_path: &str) -> (r: bool)
        ensures
            r == is_visited(self.upcoming(), package_path@),
    {
        match &self.next {
            NextPass::StabilizeLabels(Some(worklist)) => worklist.contains(
                &package_path.to_owned(),
            ),
            NextPass::Finished => false,
            _ => true,
        }
    }

    /// Takes note that a pass is complete. After one that assigned labels, what
    /// the packages then looked like decides: if nothing changed, violations
    /// are looked for next; else, the packages that changed, and all that
    /// import them, directly or not, are visited again.
    pub fn complete_pass(
        &mut self,
        snapshots: OrderedMap<String, SymbolTableSnapshot>,
        graph: &OrderedMap<String, OrderedSet<String>>,
    )
        ensures
            pass_completed(*old(self), *final(self), snapshots@, graph@),
    {
        match &self.next {
            NextPass::RecordDeclarations => {
                self.next = NextPass::StabilizeLabels(None);
            },
            NextPass::StabilizeLabels(_) => {
                let unstable = unstable_packages(self.previous.as_ref(), &snapshots);
                let ghost changed = Set::new(
                    |q: Seq<char>| is_unstable(self.last_seen(), snapshots@, q),
                );
                proof {
                    assert(unstable@ =~= changed);
                }
                let n: usize = unstable.len();
                if n == 0 {
                    proof {
                        assert(unstable@ =~= Set::<Seq<char>>::empty());
                        assert forall|p: Seq<char>| !#[trigger] is_unstable(
                            self.last_seen(),
                            snapshots@,
                            p,
                        ) by {
                            assert(!unstable@.contains(p));
                        }
                    }
                    self.next = NextPass::EnforceSecurityPolicies;
                } else {
                    proof {
                        let p = unstable.listing()[0];
                        assert(unstable.listing().contains(p));
                        assert(unstable@.contains(p));
                    }
                    let worklist = reverse_transitive_dependencies(graph, &unstable);
                    self.previous = Some(snapshots);
                    self.iteration_index = self.iteration_index.wrapping_add(1);
                    self.next = NextPass::StabilizeLabels(Some(worklist));
                }
            },
            _ => {
                self.next = NextPass::Finished;
            },
        }
    }
}

/// What changed is always visited again.
pub proof fn law_changed_packages_are_revisited(
    graph: Map<Seq<char>, OrderedSet<String>>,
    changed: Set<Seq<char>>,
    package: Seq<char>,
)
    requires
        changed.contains(package),
    ensures
        depends(graph, package, changed),
{
    assert(depends_within(graph, package, changed, 0));
}

/// What imports a package that is visited again is visited again too.
pub proof fn law_importers_are_revisited(
    graph: Map<Seq<char>, OrderedSet<String>>,
    changed: Set<Seq<char>>,
    package: Seq<char>,
    other: Seq<char>,
)
    requires
        imports(graph, package, other),
        depends(graph, other, changed),
    ensures
        depends(graph, package, changed),
{
    let n = choose|n: nat| depends_within(graph, other, changed, n);
    assert(depends_within(graph, package, changed, n + 1));
}

} // verus!
