//! From files to what is wrong with them.

use vstd::prelude::*;

use crate::analyzer::convergence::{is_visited, Convergence, NextPass};
use crate::analyzer::modules::{compute_package_path, package_path};
use crate::analyzer::{file_pairs, Analyzer};
use crate::ast::SourceFileNode;
use crate::build_constraints::{admitted_sets, are_permutations, are_sorted,
    enumerate_build_permutations, BuildPermutation};
use crate::context::{AnalysisContext, ContextModel};
use crate::errors::{findings, AnalysisError, AnalysisErrorKind, ErrorModel, FindingModel};
use crate::insertion::{count_members, insert_member, member_at, members, new_set};
use crate::ordered::OrderedMap;

verus! {

/// The paths of the files up to a position that could be parsed.
pub open spec fn parsed_paths(
    paths: Seq<Seq<char>>,
    results: Seq<Result<SourceFileNode, AnalysisErrorKind>>,
    n: int,
) -> Set<Seq<char>>
    decreases n,
{
    if n <= 0 {
        Set::<Seq<char>>::empty()
    } else if results[n - 1] is Ok {
        parsed_paths(paths, results, n - 1).insert(paths[n - 1])
    } else {
        parsed_paths(paths, results, n - 1)
    }
}

/// What is wrong with the files up to a position: those that cannot be parsed,
/// and those with the path of one before.
pub open spec fn parse_findings(
    paths: Seq<Seq<char>>,
    results: Seq<Result<SourceFileNode, AnalysisErrorKind>>,
    n: int,
) -> Seq<FindingModel>
    decreases n,
{
    if n <= 0 {
        Seq::<FindingModel>::empty()
    } else {
        let before = parse_findings(paths, results, n - 1);
        match results[n - 1] {
            Ok(_) => if parsed_paths(paths, results, n - 1).contains(paths[n - 1]) {
                before.push(
                    FindingModel {
                        file: paths[n - 1],
                        kind: ErrorModel::DuplicateVirtualFilePath,
                    },
                )
            } else {
                before
            },
            Err(kind) => before.push(FindingModel { file: paths[n - 1], kind: kind@ }),
        }
    }
}

/// What is wrong if there is nothing to analyze.
pub open spec fn nothing_registered() -> FindingModel {
    FindingModel { file: "/main.go"@, kind: ErrorModel::NoRegisteredFiles }
}

/// Whether a finding is to be reported.
pub open spec fn is_wanted(f: FindingModel, unreachable: bool) -> bool {
    unreachable || !(f.kind is Unreachable)
}

/// The findings of several lists that are to be reported, in order.
pub open spec fn wanted(lists: Seq<Seq<FindingModel>>, unreachable: bool) -> Seq<FindingModel>
    decreases lists.len(),
{
    if lists.len() == 0 {
        Seq::<FindingModel>::empty()
    } else {
        wanted(lists.drop_last(), unreachable) + lists.last().filter(
            |f: FindingModel| is_wanted(f, unreachable),
        )
    }
}

/// Findings without those that were there before.
pub open spec fn distinct(fs: Seq<FindingModel>) -> Seq<FindingModel>
    decreases fs.len(),
{
    if fs.len() == 0 {
        fs
    } else {
        let front = distinct(fs.drop_last());
        if front.contains(fs.last()) {
            front
        } else {
            front.push(fs.last())
        }
    }
}

/// What lists of errors stand for.
pub open spec fn reports_of(lists: Seq<Vec<AnalysisError>>) -> Seq<Seq<FindingModel>> {
    lists.map_values(|l: Vec<AnalysisError>| findings(l@))
}

/// What an outcome says is wrong.
pub open spec fn found_by(r: Result<(), Vec<AnalysisError>>) -> Seq<FindingModel> {
    match r {
        Ok(_) => Seq::<FindingModel>::empty(),
        Err(errors) => findings(errors@),
    }
}

/// The positions of the first findings, up to a count, that were not there
/// before.
spec fn first_positions(fs: Seq<FindingModel>, n: int) -> Seq<usize>
    decreases n,
{
    if n <= 0 {
        Seq::<usize>::empty()
    } else {
        let before = first_positions(fs, n - 1);
        if fs.take(n - 1).contains(fs[n - 1]) {
            before
        } else {
            before.push((n - 1) as usize)
        }
    }
}

proof fn lemma_distinct_has_all(fs: Seq<FindingModel>)
    ensures
        forall|f: FindingModel| #[trigger] distinct(fs).contains(f) == fs.contains(f),
    decreases fs.len(),
{
    if fs.len() > 0 {
        let front = fs.drop_last();
        lemma_distinct_has_all(front);
        assert forall|f: FindingModel| #[trigger] distinct(fs).contains(f) == fs.contains(f) by {
            if fs.contains(f) {
                let i = choose|i: int| 0 <= i < fs.len() && fs[i] == f;
                if i < front.len() {
                    assert(front[i] == f);
                    assert(front.contains(f));
                    assert(distinct(front).contains(f));
                    let k = choose|k: int| 0 <= k < distinct(front).len() && distinct(front)[k] == f;
                    assert(distinct(fs)[k] == f);
                } else if !distinct(front).contains(f) {
                    assert(distinct(fs)[distinct(front).len() as int] == f);
                }
            }
            if distinct(fs).contains(f) {
                let k = choose|k: int| 0 <= k < distinct(fs).len() && distinct(fs)[k] == f;
                if k < distinct(front).len() {
                    assert(distinct(front)[k] == f);
                    assert(distinct(front).contains(f));
                    assert(front.contains(f));
                    let i = choose|i: int| 0 <= i < front.len() && front[i] == f;
                    assert(fs[i] == f);
                } else {
                    assert(fs[fs.len() - 1] == f);
                }
            }
        }
    }
}

proof fn lemma_first_positions(fs: Seq<FindingModel>, n: int)
    requires
        0 <= n <= fs.len(),
        fs.len() <= usize::MAX,
    ensures
        first_positions(fs, n).len() <= n,
        forall|k: int| 0 <= k < first_positions(fs, n).len() ==> #[trigger] first_positions(fs, n)[k] < n,
        forall|i: int, j: int|
            0 <= i < j < first_positions(fs, n).len() ==> first_positions(fs, n)[i]
                < first_positions(fs, n)[j],
        first_positions(fs, n).map_values(|p: usize| fs[p as int]) == distinct(fs.take(n)),
    decreases n,
{
    if n > 0 {
        lemma_first_positions(fs, n - 1);
        let front = fs.take(n - 1);
        assert(fs.take(n).drop_last() =~= front);
        assert(fs.take(n).last() == fs[n - 1]);
        lemma_distinct_has_all(front);
        let before = first_positions(fs, n - 1);
        if !front.contains(fs[n - 1]) {
            assert(before.push((n - 1) as usize).map_values(|p: usize| fs[p as int])
                =~= before.map_values(|p: usize| fs[p as int]).push(fs[n - 1]));
        }
    } else {
        assert(first_positions(fs, n).map_values(|p: usize| fs[p as int]) =~= distinct(
            fs.take(n),
        ));
    }
}

fn position_of_first(errors: &Vec<AnalysisError>, i: usize) -> (r: usize)
    requires
        i < errors@.len(),
    ensures
        r <= i,
        errors@[r as int]@ == errors@[i as int]@,
        forall|k: int| 0 <= k < r ==> (#[trigger] errors@[k])@ != errors@[i as int]@,
{
    let mut j: usize = 0;
    while j < i && !errors[j].same_as(&errors[i])
        invariant
            j <= i,
            i < errors@.len(),
            forall|k: int| 0 <= k < j ==> (#[trigger] errors@[k])@ != errors@[i as int]@,
        decreases i - j,
    {
        j = j + 1;
    }
    j
}

/// Errors without those that were there before.
pub fn without_repetitions(errors: Vec<AnalysisError>) -> (r: Vec<AnalysisError>)
    ensures
        findings(r@) == distinct(findings(errors@)),
{
    let mut errors = errors;
    let ghost fs = findings(errors@);
    let n: usize = errors.len();
    let mut firsts = new_set();
    let mut i: usize = 0;
    while i < n
        invariant
            i <= n,
            n == errors@.len(),
            fs == findings(errors@),
            members(firsts) == first_positions(fs, i as int),
        decreases n - i,
    {
        let p: usize = position_of_first(&errors, i);
        let _new = insert_member(&mut firsts, p);
        proof {
            lemma_first_positions(fs, i as int);
            let before = first_positions(fs, i as int);
            if p < i {
                assert(fs.take(i as int)[p as int] == fs[i as int]);
                assert(fs.take(i as int).contains(fs[i as int]));
                lemma_first_is_member(fs, p as int, i as int);
            } else {
                let front = fs.take(i as int);
                assert(!front.contains(fs[i as int])) by {
                    if front.contains(fs[i as int]) {
                        let k = choose|k: int| 0 <= k < front.len() && front[k] == fs[i as int];
                        assert(errors@[k]@ == errors@[i as int]@);
                    }
                }
                assert(!before.contains(p)) by {
                    if before.contains(p) {
                        let k = choose|k: int| 0 <= k < before.len() && before[k] == p;
                        assert(before[k] < i);
                    }
                }
            }
        }
        i = i + 1;
    }
    let ghost all = errors@;
    let ghost ps = members(firsts);
    proof {
        lemma_first_positions(fs, n as int);
        assert(fs.take(n as int) =~= fs);
    }
    let m: usize = count_members(&firsts);
    let mut r: Vec<AnalysisError> = Vec::new();
    let mut taken: usize = 0;
    let mut k: usize = 0;
    while taken < n && k < m
        invariant
            taken <= n,
            k <= m,
            m == ps.len(),
            ps == members(firsts),
            n == all.len(),
            errors@ == all.skip(taken as int),
            r@.len() == k,
            forall|q: int| 0 <= q < k ==> #[trigger] r@[q] == all[ps[q] as int],
            forall|q: int| 0 <= q < m ==> #[trigger] ps[q] < n,
            forall|q: int, s: int| 0 <= q < s < m ==> ps[q] < ps[s],
            k < m ==> taken <= ps[k as int],
        decreases n - taken,
    {
        let error = errors.remove(0);
        proof {
            assert(error == all[taken as int]);
            assert(errors@ =~= all.skip(taken + 1));
        }
        let wanted_next = match member_at(&firsts, k) {
            Some(p) => *p == taken,
            None => false,
        };
        if wanted_next {
            r.push(error);
            k = k + 1;
        }
        taken = taken + 1;
    }
    proof {
        assert(k == m) by {
            if k < m {
                assert(ps[k as int] < n);
            }
        }
        assert(findings(r@) =~= ps.map_values(|p: usize| fs[p as int]));
    }
    r
}

proof fn lemma_first_is_member(fs: Seq<FindingModel>, p: int, n: int)
    requires
        0 <= p < n <= fs.len(),
        fs.len() <= usize::MAX,
        forall|k: int| 0 <= k < p ==> fs[k] != fs[p],
    ensures
        first_positions(fs, n).contains(p as usize),
    decreases n,
{
    let before = first_positions(fs, n - 1);
    if p == n - 1 {
        let front = fs.take(n - 1);
        assert(!front.contains(fs[n - 1])) by {
            if front.contains(fs[n - 1]) {
                let k = choose|k: int| 0 <= k < front.len() && front[k] == fs[n - 1];
                assert(fs[k] == fs[p]);
            }
        }
        assert(first_positions(fs, n)[before.len() as int] == p as usize);
    } else {
        lemma_first_is_member(fs, p, n - 1);
        let k = choose|k: int| 0 <= k < before.len() && before[k] == p as usize;
        assert(first_positions(fs, n)[k] == p as usize);
    }
}

fn is_unreachable(kind: &AnalysisErrorKind) -> (r: bool)
    ensures
        r == (kind@ is Unreachable),
{
    match kind {
        AnalysisErrorKind::Unreachable { .. } => true,
        _ => false,
    }
}

fn only(error: AnalysisError) -> (r: Vec<AnalysisError>)
    ensures
        findings(r@) == seq![error@],
{
    let ghost m = error@;
    let mut r: Vec<AnalysisError> = Vec::new();
    r.push(error);
    proof {
        assert(findings(r@) =~= seq![m]);
    }
    r
}

/// The state at the end of an analysis, in which something was to be checked or
/// not.
pub open spec fn missing_policy_reported(ctx: ContextModel, checks: bool) -> ContextModel {
    if checks {
        ctx
    } else {
        ContextModel {
            log: ctx.log.with_error_at("/main.go"@, ErrorModel::NoSecurityPolicy),
            ..ctx
        }
    }
}

/// Those of the first admitted files that are visited in a pass: the ones whose
/// package is.
pub open spec fn visited_files(
    base: Seq<char>,
    paths: Seq<Seq<char>>,
    admitted: Seq<usize>,
    next: NextPass,
    n: int,
) -> Seq<usize>
    decreases n,
{
    if n <= 0 {
        Seq::<usize>::empty()
    } else {
        let before = visited_files(base, paths, admitted, next, n - 1);
        let file = admitted[n - 1];
        if is_visited(next, package_path(base, paths[file as int])) {
            before.push(file)
        } else {
            before
        }
    }
}

impl Analyzer {
    /// The paths of the files to be analyzed.
    pub open spec fn paths(&self) -> Seq<Seq<char>> {
        self.listed().map_values(|f: (Seq<char>, Seq<char>)| f.0)
    }

    /// The number of files to be analyzed.
    pub fn file_count(&self) -> (r: usize)
        ensures
            r == self.listed().len(),
    {
        proof {
            assert(self.listed().len() == self.files@.len());
        }
        self.files.len()
    }

    /// The path of the file at a position.
    pub fn file_path(&self, i: usize) -> (r: &str)
        requires
            i < self.listed().len(),
        ensures
            r@ == self.listed()[i as int].0,
    {
        self.files[i].virtual_path()
    }

    /// Puts together what became of the parsing of each file, in the order of
    /// the files.
    pub fn parse_files(
        &self,
        results: Vec<Result<SourceFileNode, AnalysisErrorKind>>,
    ) -> (r: Result<OrderedMap<String, SourceFileNode>, Vec<AnalysisError>>)
        requires
            results@.len() == self.listed().len(),
        ensures
            results@.len() == 0 ==> r is Err && findings(r->Err_0@) == seq![nothing_registered()],
            results@.len() > 0 ==> {
                let fs = parse_findings(self.paths(), results@, results@.len() as int);
                &&& r is Ok <==> fs.len() == 0
                &&& r matches Err(errors) ==> findings(errors@) == fs
                &&& r matches Ok(parsed) ==> {
                    &&& parsed@.dom() == self.paths().to_set()
                    &&& forall|i: int|
                        0 <= i < results@.len() ==> results@[i] == Ok::<
                            SourceFileNode,
                            AnalysisErrorKind,
                        >(parsed@[#[trigger] self.paths()[i]])
                }
            },
    {
        let ghost all = results@;
        let ghost paths = self.paths();
        let n: usize = self.files.len();
        if n == 0 {
            return Err(
                only(
                    AnalysisError {
                        file: "/main.go".to_owned(),
                        kind: AnalysisErrorKind::NoRegisteredFiles,
                    },
                ),
            );
        }
        let mut rest = results;
        let mut parsed: OrderedMap<String, SourceFileNode> = OrderedMap::new();
        let mut errors: Vec<AnalysisError> = Vec::new();
        let mut i: usize = 0;
        proof {
            assert(findings(errors@) =~= parse_findings(paths, all, 0));
            assert(parsed@.dom() =~= parsed_paths(paths, all, 0));
        }
        while i < n
            invariant
                i <= n,
                n == self.files@.len(),
                n == all.len(),
                paths == self.paths(),
                paths.len() == n,
                self.listed() == file_pairs(self.files@),
                rest@ == all.skip(i as int),
                findings(errors@) == parse_findings(paths, all, i as int),
                parsed@.dom() == parsed_paths(paths, all, i as int),
                errors@.len() == 0 ==> forall|k: int|
                    0 <= k < i ==> all[k] == Ok::<SourceFileNode, AnalysisErrorKind>(
                        parsed@[#[trigger] paths[k]],
                    ) && parsed@.dom().contains(paths[k]),
            decreases n - i,
        {
            let path = self.files[i].virtual_path().to_owned();
            let ghost before = findings(errors@);
            let ghost held = parsed@;
            proof {
                assert(paths[i as int] == path@);
            }
            let result = rest.remove(0);
            proof {
                assert(result == all[i as int]);
                assert(rest@ =~= all.skip(i + 1));
            }
            match result {
                Ok(node) => {
                    let duplicate = parsed.contains_key(&path);
                    if duplicate {
                        errors.push(
                            AnalysisError {
                                file: path.clone(),
                                kind: AnalysisErrorKind::DuplicateVirtualFilePath,
                            },
                        );
                    }
                    parsed.insert(path, node);
                    proof {
                        assert(parsed@.dom() =~= held.dom().insert(paths[i as int]));
                    }
                },
                Err(kind) => {
                    errors.push(AnalysisError { file: path, kind });
                },
            }
            proof {
                assert(findings(errors@) =~= parse_findings(paths, all, i + 1));
                assert(errors@.len() == findings(errors@).len());
            }
            i = i + 1;
        }
        if errors.len() == 0 {
            proof {
                assert(parsed@.dom() =~= paths.to_set()) by {
                    assert forall|x: Seq<char>| #[trigger] parsed@.dom().contains(x)
                        == paths.to_set().contains(x) by {
                        if parsed@.dom().contains(x) {
                            lemma_parsed_paths(paths, all, n as int, x);
                        }
                        if paths.contains(x) {
                            let k = choose|k: int| 0 <= k < paths.len() && paths[k] == x;
                            assert(parsed@.dom().contains(paths[k]));
                        }
                    }
                }
            }
            Ok(parsed)
        } else {
            Err(errors)
        }
    }

    /// The permutations to be analyzed, unless there are too many or none.
    pub fn plan(&self, parsed: &OrderedMap<String, SourceFileNode>) -> (r: Result<
        Vec<BuildPermutation>,
        Vec<AnalysisError>,
    >)
        ensures
            ({
                let count = admitted_sets(parsed@).len();
                &&& admitted_sets(parsed@).finite()
                &&& r is Ok <==> 0 < count <= self.permutation_limit()
                &&& r matches Ok(perms) ==> are_permutations(parsed@, perms@) && are_sorted(perms@)
                    && perms@.len() == count
                &&& r matches Err(errors) ==> findings(errors@) == seq![
                    if count == 0 {
                        nothing_registered()
                    } else {
                        FindingModel {
                            file: "/main.go"@,
                            kind: ErrorModel::TooManyBuildPermutations {
                                limit: self.permutation_limit(),
                                found: count as usize,
                            },
                        }
                    },
                ]
            }),
    {
        match enumerate_build_permutations(parsed, self.max_build_permutations) {
            Ok(perms) => if perms.len() == 0 {
                Err(
                    only(
                        AnalysisError {
                            file: "/main.go".to_owned(),
                            kind: AnalysisErrorKind::NoRegisteredFiles,
                        },
                    ),
                )
            } else {
                Ok(perms)
            },
            Err(found) => Err(
                only(
                    AnalysisError {
                        file: "/main.go".to_owned(),
                        kind: AnalysisErrorKind::TooManyBuildPermutations {
                            limit: self.max_build_permutations,
                            found,
                        },
                    },
                ),
            ),
        }
    }

    /// The positions of the files that a permutation admits, in the order of
    /// the files.
    pub fn admitted_files(&self, permutation: &BuildPermutation) -> (r: Vec<usize>)
        ensures
            forall|k: int|
                0 <= k < r@.len() ==> (#[trigger] r@[k]) < self.listed().len()
                    && permutation.admitted@.contains(self.paths()[r@[k] as int]),
            forall|i: int, j: int| 0 <= i < j < r@.len() ==> r@[i] < r@[j],
            forall|f: int|
                0 <= f < self.listed().len() && permutation.admitted@.contains(
                    #[trigger] self.paths()[f],
                ) ==> r@.contains(f as usize),
    {
        let mut r: Vec<usize> = Vec::new();
        let n: usize = self.files.len();
        let mut i: usize = 0;
        while i < n
            invariant
                i <= n,
                n == self.files@.len(),
                self.listed() == file_pairs(self.files@),
                forall|k: int|
                    0 <= k < r@.len() ==> (#[trigger] r@[k]) < i
                        && permutation.admitted@.contains(self.paths()[r@[k] as int]),
                forall|i: int, j: int| 0 <= i < j < r@.len() ==> r@[i] < r@[j],
                forall|f: int|
                    0 <= f < i && permutation.admitted@.contains(#[trigger] self.paths()[f])
                        ==> r@.contains(f as usize),
            decreases n - i,
        {
            let path = self.files[i].virtual_path().to_owned();
            let ghost before = r@;
            proof {
                assert(self.paths()[i as int] == path@);
            }
            if permutation.admitted.contains(&path) {
                r.push(i);
                proof {
                    assert(r@[before.len() as int] == i);
                    assert forall|f: int|
                        0 <= f < i + 1 && permutation.admitted@.contains(
                            #[trigger] self.paths()[f],
                        ) implies r@.contains(f as usize) by {
                        if f < i {
                            assert(before.contains(f as usize));
                            let k = choose|k: int| 0 <= k < before.len() && before[k] == f as usize;
                            assert(r@[k] == f as usize);
                        }
                    }
                }
            }
            i = i + 1;
        }
        r
    }

    /// The path of the package of a file.
    pub fn package_of(&self, file: usize) -> (r: String)
        requires
            file < self.listed().len(),
        ensures
            r@ == package_path(self.base(), self.paths()[file as int]),
    {
        compute_package_path(self.module_base.as_str(), self.file_path(file))
    }

    /// Picks those of the admitted files that are visited in the next pass.
    pub fn files_to_visit(&self, admitted: &Vec<usize>, progress: &Convergence) -> (r: Vec<usize>)
        requires
            forall|k: int| 0 <= k < admitted@.len() ==> (#[trigger] admitted@[k]) < self.listed().len(),
        ensures
            r@ == visited_files(
                self.base(),
                self.paths(),
                admitted@,
                progress.upcoming(),
                admitted@.len() as int,
            ),
    {
        let mut r: Vec<usize> = Vec::new();
        let n: usize = admitted.len();
        let mut i: usize = 0;
        while i < n
            invariant
                i <= n,
                n == admitted@.len(),
                forall|k: int|
                    0 <= k < admitted@.len() ==> (#[trigger] admitted@[k]) < self.listed().len(),
                r@ == visited_files(
                    self.base(),
                    self.paths(),
                    admitted@,
                    progress.upcoming(),
                    i as int,
                ),
            decreases n - i,
        {
            let file: usize = admitted[i];
            let package = self.package_of(file);
            if progress.visits(package.as_str()) {
                r.push(file);
            }
            i = i + 1;
        }
        r
    }

    /// Reports, at the end of an analysis, that nothing was to be checked, if
    /// neither a directive nor the source declares a sink or an assertion.
    pub fn report_missing_policy(&self, ctx: &mut AnalysisContext, saw_enforcement_checks: bool)
        ensures
            final(ctx)@ == missing_policy_reported(
                old(ctx)@,
                self.has_sinks() || saw_enforcement_checks,
            ),
    {
        if !self.has_blanket_enforcement_checks() && !saw_enforcement_checks {
            ctx.log.report_error_at("/main.go", AnalysisErrorKind::NoSecurityPolicy);
        }
    }

    /// Puts together what is wrong in each permutation.
    pub fn conclude(&self, reports: Vec<Vec<AnalysisError>>) -> (r: Result<(), Vec<AnalysisError>>)
        ensures
            found_by(r) == distinct(wanted(reports_of(reports@), self.wants_unreachable())),
            r is Ok <==> found_by(r).len() == 0,
    {
        let ghost lists = reports@;
        let ghost all = reports_of(lists);
        let ghost keep = self.wants_unreachable();
        let ghost pred = |f: FindingModel| is_wanted(f, keep);
        let mut rest = reports;
        let n: usize = rest.len();
        let mut flat: Vec<AnalysisError> = Vec::new();
        let mut i: usize = 0;
        proof {
            assert(all.take(0) =~= Seq::<Seq<FindingModel>>::empty());
            assert(findings(flat@) =~= wanted(all.take(0), keep));
        }
        while i < n
            invariant
                i <= n,
                n == all.len(),
                keep == self.wants_unreachable(),
                keep == self.report_unreachable,
                pred == (|f: FindingModel| is_wanted(f, keep)),
                all == reports_of(lists),
                rest@ == lists.skip(i as int),
                findings(flat@) == wanted(all.take(i as int), keep),
            decreases n - i,
        {
            let mut list = rest.remove(0);
            let ghost items = list@;
            let ghost fs = findings(items);
            let ghost before = findings(flat@);
            proof {
                assert(list == lists[i as int]);
                assert(rest@ =~= lists.skip(i + 1));
                assert(all.take(i + 1).drop_last() =~= all.take(i as int));
                assert(all.take(i + 1).last() == fs);
            }
            let m: usize = list.len();
            let mut j: usize = 0;
            proof {
                reveal(Seq::filter);
                assert(fs.take(0).filter(pred) =~= Seq::<FindingModel>::empty());
                assert(findings(flat@) =~= before + fs.take(0).filter(pred));
            }
            while j < m
                invariant
                    j <= m,
                    m == fs.len(),
                    keep == self.report_unreachable,
                    pred == (|f: FindingModel| is_wanted(f, keep)),
                    fs == findings(items),
                    list@ == items.skip(j as int),
                    findings(flat@) == before + fs.take(j as int).filter(pred),
                decreases m - j,
            {
                let error = list.remove(0);
                let ghost f = error@;
                let ghost sofar = findings(flat@);
                proof {
                    assert(error == items[j as int]);
                    assert(list@ =~= items.skip(j + 1));
                    assert(fs.take(j + 1).drop_last() =~= fs.take(j as int));
                    assert(fs.take(j + 1).last() == f);
                    reveal(Seq::filter);
                }
                if self.report_unreachable || !is_unreachable(&error.kind) {
                    flat.push(error);
                    proof {
                        assert(pred(f));
                        assert(findings(flat@) =~= sofar.push(f));
                        assert(sofar.push(f) =~= before + fs.take(j as int).filter(pred).push(f));
                    }
                }
                j = j + 1;
            }
            proof {
                assert(fs.take(m as int) =~= fs);
            }
            i = i + 1;
        }
        proof {
            assert(all.take(n as int) =~= all);
        }
        let errors = without_repetitions(flat);
        proof {
            assert(findings(errors@).len() == errors@.len());
        }
        if errors.len() == 0 {
            proof {
                assert(findings(errors@) =~= Seq::<FindingModel>::empty());
            }
            Ok(())
        } else {
            Err(errors)
        }
    }

    /// Analyzes the files, given what became of the parsing of each of them and
    /// how a permutation is analyzed.
    pub fn analyze<F: Fn(&BuildPermutation, &OrderedMap<String, SourceFileNode>) -> Vec<AnalysisError>>(
        &self,
        results: Vec<Result<SourceFileNode, AnalysisErrorKind>>,
        process_permutation: F,
    ) -> (r: Result<(), Vec<AnalysisError>>)
        requires
            results@.len() == self.listed().len(),
            forall|p: &BuildPermutation, m: &OrderedMap<String, SourceFileNode>|
                call_requires(process_permutation, (p, m)),
        ensures
            results@.len() == 0 ==> found_by(r) == seq![nothing_registered()],
            results@.len() > 0 ==> {
                let fs = parse_findings(self.paths(), results@, results@.len() as int);
                if fs.len() > 0 {
                    found_by(r) == fs
                } else {
                    exists|parsed: OrderedMap<String, SourceFileNode>| #[trigger]
                        self.is_outcome(results@, parsed, process_permutation, r)
                }
            },
            r is Ok <==> found_by(r).len() == 0,
    {
        let ghost given = results@;
        let parsed = match self.parse_files(results) {
            Ok(parsed) => parsed,
            Err(errors) => {
                return Err(errors);
            },
        };
        let perms = match self.plan(&parsed) {
            Ok(perms) => perms,
            Err(errors) => {
                let r = Err(errors);
                proof {
                    assert(self.is_outcome(given, parsed, process_permutation, r));
                }
                return r;
            },
        };
        let n: usize = perms.len();
        let mut reports: Vec<Vec<AnalysisError>> = Vec::new();
        let mut i: usize = 0;
        while i < n
            invariant
                i <= n,
                n == perms@.len(),
                reports@.len() == i,
                forall|p: &BuildPermutation, m: &OrderedMap<String, SourceFileNode>|
                    call_requires(process_permutation, (p, m)),
                forall|k: int|
                    0 <= k < i ==> call_ensures(
                        process_permutation,
                        (&perms@[k], &parsed),
                        #[trigger] reports@[k],
                    ),
            decreases n - i,
        {
            let report = process_permutation(&perms[i], &parsed);
            reports.push(report);
            i = i + 1;
        }
        let ghost given_reports = reports@;
        let r = self.conclude(reports);
        proof {
            assert(self.is_report(parsed, process_permutation, perms@, given_reports, r));
            assert(self.is_outcome(given, parsed, process_permutation, r));
        }
        r
    }

    /// Whether an outcome is one for parsed files.
    pub open spec fn is_outcome<
        F: Fn(&BuildPermutation, &OrderedMap<String, SourceFileNode>) -> Vec<AnalysisError>,
    >(
        &self,
        results: Seq<Result<SourceFileNode, AnalysisErrorKind>>,
        parsed: OrderedMap<String, SourceFileNode>,
        process_permutation: F,
        r: Result<(), Vec<AnalysisError>>,
    ) -> bool {
        let count = admitted_sets(parsed@).len();
        &&& parsed@.dom() == self.paths().to_set()
        &&& forall|i: int|
            0 <= i < results.len() ==> results[i] == Ok::<SourceFileNode, AnalysisErrorKind>(
                parsed@[#[trigger] self.paths()[i]],
            )
        &&& count == 0 ==> found_by(r) == seq![nothing_registered()]
        &&& count > self.permutation_limit() ==> found_by(r) == seq![
            FindingModel {
                file: "/main.go"@,
                kind: ErrorModel::TooManyBuildPermutations {
                    limit: self.permutation_limit(),
                    found: count as usize,
                },
            },
        ]
        &&& 0 < count <= self.permutation_limit() ==> exists|
            perms: Seq<BuildPermutation>,
            reports: Seq<Vec<AnalysisError>>,
        | #[trigger] self.is_report(parsed, process_permutation, perms, reports, r)
    }

    /// Whether an outcome is what the reports on all permutations add up to.
    pub open spec fn is_report<
        F: Fn(&BuildPermutation, &OrderedMap<String, SourceFileNode>) -> Vec<AnalysisError>,
    >(
        &self,
        parsed: OrderedMap<String, SourceFileNode>,
        process_permutation: F,
        perms: Seq<BuildPermutation>,
        reports: Seq<Vec<AnalysisError>>,
        r: Result<(), Vec<AnalysisError>>,
    ) -> bool {
        &&& are_permutations(parsed@, perms)
        &&& are_sorted(perms)
        &&& perms.len() == admitted_sets(parsed@).len()
        &&& reports.len() == perms.len()
        &&& forall|i: int|
            0 <= i < perms.len() ==> call_ensures(
                process_permutation,
                (&perms[i], &parsed),
                #[trigger] reports[i],
            )
        &&& found_by(r) == distinct(wanted(reports_of(reports), self.wants_unreachable()))
    }
}

proof fn lemma_parsed_paths(
    paths: Seq<Seq<char>>,
    results: Seq<Result<SourceFileNode, AnalysisErrorKind>>,
    n: int,
    x: Seq<char>,
)
    requires
        0 <= n <= paths.len(),
        parsed_paths(paths, results, n).contains(x),
    ensures
        paths.contains(x),
    decreases n,
{
    if n > 0 {
        if results[n - 1] is Ok && x == paths[n - 1] {
        } else {
            lemma_parsed_paths(paths, results, n - 1, x);
        }
    }
}

/// Nothing that was found is lost when repetitions are removed, and nothing is
/// reported twice.
pub proof fn law_reports_are_complete_and_distinct(fs: Seq<FindingModel>)
    ensures
        forall|f: FindingModel| #[trigger] distinct(fs).contains(f) == fs.contains(f),
        distinct(fs).no_duplicates(),
    decreases fs.len(),
{
    lemma_distinct_has_all(fs);
    if fs.len() > 0 {
        law_reports_are_complete_and_distinct(fs.drop_last());
    }
}

} // verus!
