//! The conduct of an analysis.

use vstd::prelude::*;

use crate::build_constraints::DEFAULT_MAX_BUILD_PERMUTATIONS;
use crate::files::SourceFile;
use crate::ordered::{compare_path, same_text, path_order, Order, OrderedMap};
use crate::policy::blanket_directives::{BlanketDirective, PackageBlanketDirectives};
use crate::text::{cut_at_last, ends_with, split_at_last};

pub mod convergence;
pub mod directives;
pub mod laws;
pub mod modules;
pub mod outcomes;
pub mod runs;

verus! {

/// The conductor of an analysis.
#[derive(Debug)]
pub struct Analyzer {
    module_base: String,
    files: Vec<SourceFile>,
    blanket_directives: OrderedMap<String, PackageBlanketDirectives>,
    verbose: bool,
    include_tests: bool,
    max_build_permutations: usize,
    report_unreachable: bool,
}

/// A file as a path and its contents.
pub open spec fn file_pairs(files: Seq<SourceFile>) -> Seq<(Seq<char>, Seq<char>)> {
    files.map_values(|f: SourceFile| (f.path(), f.code()))
}

/// Whether files are in the order of their paths.
pub open spec fn are_in_order(files: Seq<(Seq<char>, Seq<char>)>) -> bool {
    forall|i: int, j: int|
        0 <= i < j < files.len() ==> !(path_order((#[trigger] files[i]).0, (#[trigger] files[j]).0)
            is Greater)
}

/// Where a file with a path belongs: behind all that are not greater.
pub open spec fn place_for(files: Seq<(Seq<char>, Seq<char>)>, path: Seq<char>) -> int
    decreases files.len(),
{
    if files.len() == 0 || path_order(files[0].0, path) is Greater {
        0
    } else {
        1 + place_for(files.skip(1), path)
    }
}

impl Analyzer {
    /// The path of the module.
    pub closed spec fn base(&self) -> Seq<char> {
        self.module_base@
    }

    /// The files to be analyzed.
    pub closed spec fn listed(&self) -> Seq<(Seq<char>, Seq<char>)> {
        file_pairs(self.files@)
    }

    /// The directives for a symbol of a package, or for a member of one of its
    /// types.
    pub closed spec fn directives_for(
        &self,
        package_path: Seq<char>,
        owner_type: Option<Seq<char>>,
        member_name: Seq<char>,
    ) -> Seq<BlanketDirective> {
        if self.blanket_directives@.dom().contains(package_path) {
            self.blanket_directives@[package_path].at(owner_type, member_name)
        } else {
            Seq::<BlanketDirective>::empty()
        }
    }

    /// Whether to say more on the way.
    pub closed spec fn says_more(&self) -> bool {
        self.verbose
    }

    /// Whether test files are analyzed too.
    pub closed spec fn wants_tests(&self) -> bool {
        self.include_tests
    }

    /// How many distinct build permutations are analyzed at most.
    pub closed spec fn permutation_limit(&self) -> usize {
        self.max_build_permutations
    }

    /// Whether unreachable code is reported.
    pub closed spec fn wants_unreachable(&self) -> bool {
        self.report_unreachable
    }

    /// Whether two analyzers differ in nothing but their directives.
    pub open spec fn same_but_directives(&self, other: &Analyzer) -> bool {
        &&& self.base() == other.base()
        &&& self.listed() == other.listed()
        &&& self.says_more() == other.says_more()
        &&& self.wants_tests() == other.wants_tests()
        &&& self.permutation_limit() == other.permutation_limit()
        &&& self.wants_unreachable() == other.wants_unreachable()
    }

    #[verifier::type_invariant]
    spec fn inv(&self) -> bool {
        are_in_order(file_pairs(self.files@))
    }

    /// An analyzer for a module, without files and directives.
    pub fn new(module_base: &str) -> (r: Self)
        ensures
            r.base() == module_base@,
            r.listed() == Seq::<(Seq<char>, Seq<char>)>::empty(),
            forall|p: Seq<char>, t: Option<Seq<char>>, m: Seq<char>|
                #[trigger] r.directives_for(p, t, m) == Seq::<BlanketDirective>::empty(),
            !r.says_more(),
            !r.wants_tests(),
            r.permutation_limit() == DEFAULT_MAX_BUILD_PERMUTATIONS,
            !r.wants_unreachable(),
    {
        let files: Vec<SourceFile> = Vec::new();
        proof {
            assert(file_pairs(files@) =~= Seq::<(Seq<char>, Seq<char>)>::empty());
        }
        Analyzer {
            module_base: module_base.to_owned(),
            files,
            blanket_directives: OrderedMap::new(),
            verbose: false,
            include_tests: false,
            max_build_permutations: DEFAULT_MAX_BUILD_PERMUTATIONS,
            report_unreachable: false,
        }
    }

    /// Makes the analyzer say more on the way, once and for all.
    pub fn make_verbose(&mut self)
        ensures
            final(self).says_more(),
            final(self).base() == old(self).base(),
            final(self).listed() == old(self).listed(),
            final(self).wants_tests() == old(self).wants_tests(),
            final(self).permutation_limit() == old(self).permutation_limit(),
            final(self).wants_unreachable() == old(self).wants_unreachable(),
            forall|p: Seq<char>, t: Option<Seq<char>>, m: Seq<char>|
                #[trigger] final(self).directives_for(p, t, m) == old(self).directives_for(p, t, m),
    {
        proof {
            use_type_invariant(&*self);
        }
        self.verbose = true;
    }

    /// Whether the analyzer says more on the way.
    pub fn is_verbose(&self) -> (r: bool)
        ensures
            r == self.says_more(),
    {
        self.verbose
    }

    /// Whether a file of a directory is to be analyzed, going by its name.
    pub fn admits_file_name(&self, name: &str) -> (r: bool)
        ensures
            r == (has_go_extension(name@) && (self.wants_tests() || !"_test.go"@.is_suffix_of(name@))),
    {
        let go = match split_at_last(name, '.') {
            Some((stem, extension)) => !stem.is_empty() && same_text(extension, "go"),
            None => false,
        };
        go && (self.include_tests || !ends_with(name, "_test.go"))
    }

    /// Adds a file, where its path belongs among those of the others.
    pub fn add_file(&mut self, file: SourceFile)
        ensures
            final(self).listed() == old(self).listed().insert(
                place_for(old(self).listed(), file.path()),
                (file.path(), file.code()),
            ),
            final(self).base() == old(self).base(),
            final(self).says_more() == old(self).says_more(),
            final(self).wants_tests() == old(self).wants_tests(),
            final(self).permutation_limit() == old(self).permutation_limit(),
            final(self).wants_unreachable() == old(self).wants_unreachable(),
            forall|p: Seq<char>, t: Option<Seq<char>>, m: Seq<char>|
                #[trigger] final(self).directives_for(p, t, m) == old(self).directives_for(p, t, m),
    {
        proof {
            use_type_invariant(&*self);
        }
        let ghost before = self.listed();
        let n: usize = self.files.len();
        let mut index: usize = 0;
        proof {
            assert(before.skip(0) =~= before);
        }
        let ghost path = file.path();
        while index < n && !is_greater(self.files[index].virtual_path(), file.virtual_path())
            invariant
                index <= n,
                n == self.files@.len(),
                path == file.path(),
                before == file_pairs(self.files@),
                place_for(before, path) == index + place_for(before.skip(index as int), path),
                forall|k: int| 0 <= k < index ==> !(path_order((#[trigger] before[k]).0, path) is Greater),
            decreases n - index,
        {
            proof {
                assert(before.skip(index as int)[0] == before[index as int]);
                assert(before.skip(index as int).skip(1) =~= before.skip(index + 1));
            }
            index = index + 1;
        }
        let ghost pair = (file.path(), file.code());
        let mut files: Vec<SourceFile> = Vec::new();
        proof {
            assert(file_pairs(files@) =~= Seq::<(Seq<char>, Seq<char>)>::empty());
            if index < n {
                assert(before.skip(index as int)[0] == before[index as int]);
            }
        }
        std::mem::swap(&mut files, &mut self.files);
        files.insert(index, file);
        proof {
            assert(file_pairs(files@) =~= before.insert(index as int, pair));
            lemma_insertion_keeps_order(before, index as int, pair);
        }
        self.files = files;
    }

    /// The contents of a file with a path.
    pub fn file_contents(&self, virtual_path: &str) -> (r: Option<&str>)
        ensures
            r is Some <==> exists|i: int|
                0 <= i < self.listed().len() && (#[trigger] self.listed()[i]).0 == virtual_path@,
            r matches Some(c) ==> exists|i: int|
                0 <= i < self.listed().len() && #[trigger] self.listed()[i] == (virtual_path@, c@),
    {
        proof {
            use_type_invariant(self);
        }
        let ghost files = self.listed();
        let mut low: usize = 0;
        let mut high: usize = self.files.len();
        while low < high
            invariant
                low <= high <= self.files@.len(),
                files == file_pairs(self.files@),
                files == self.listed(),
                are_in_order(files),
                forall|k: int|
                    0 <= k < low ==> path_order((#[trigger] files[k]).0, virtual_path@) is Less,
                forall|k: int|
                    high <= k < files.len() ==> path_order(
                        (#[trigger] files[k]).0,
                        virtual_path@,
                    ) is Greater,
            decreases high - low,
        {
            let middle: usize = low + (high - low) / 2;
            let ghost at = files[middle as int];
            match compare_path(self.files[middle].virtual_path(), virtual_path) {
                Order::Equal => {
                    proof {
                        crate::ordered::path_order_equal(at.0, virtual_path@);
                        assert(files[middle as int] == (virtual_path@, at.1));
                    }
                    return Some(self.files[middle].contents());
                },
                Order::Less => {
                    proof {
                        assert forall|k: int| 0 <= k < middle + 1 implies path_order(
                            (#[trigger] files[k]).0,
                            virtual_path@,
                        ) is Less by {
                            if k < middle {
                                lemma_not_greater(files[k].0, at.0, virtual_path@);
                            }
                        }
                    }
                    low = middle + 1;
                },
                Order::Greater => {
                    proof {
                        assert forall|k: int| middle <= k < files.len() implies path_order(
                            (#[trigger] files[k]).0,
                            virtual_path@,
                        ) is Greater by {
                            if k > middle {
                                lemma_not_less(files[k].0, at.0, virtual_path@);
                            }
                        }
                    }
                    high = middle;
                },
            }
        }
        proof {
            assert forall|i: int| 0 <= i < files.len() implies (#[trigger] files[i]).0
                != virtual_path@ by {
                crate::ordered::path_order_equal(files[i].0, virtual_path@);
            }
        }
        None
    }
}

/// Whether the name of a file ends in the extension for Go, behind something.
pub open spec fn has_go_extension(name: Seq<char>) -> bool {
    cut_at_last(name, '.') matches Some((stem, extension)) && stem.len() > 0 && extension == "go"@
}

fn is_greater(a: &str, b: &str) -> (r: bool)
    ensures
        r == (path_order(a@, b@) is Greater),
{
    match compare_path(a, b) {
        Order::Greater => true,
        _ => false,
    }
}

proof fn lemma_not_greater(a: Seq<char>, b: Seq<char>, c: Seq<char>)
    requires
        !(path_order(a, b) is Greater),
        path_order(b, c) is Less,
    ensures
        path_order(a, c) is Less,
{
    if path_order(a, b) is Equal {
        crate::ordered::path_order_equal(a, b);
    } else {
        crate::ordered::path_order_transitive(a, b, c);
    }
}

proof fn lemma_not_less(a: Seq<char>, b: Seq<char>, c: Seq<char>)
    requires
        !(path_order(b, a) is Greater),
        path_order(b, c) is Greater,
    ensures
        path_order(a, c) is Greater,
{
    crate::ordered::path_order_flip(b, c);
    crate::ordered::path_order_flip(a, c);
    if path_order(b, a) is Equal {
        crate::ordered::path_order_equal(b, a);
    } else {
        crate::ordered::path_order_transitive(c, b, a);
    }
}

proof fn lemma_insertion_keeps_order(
    files: Seq<(Seq<char>, Seq<char>)>,
    at: int,
    new: (Seq<char>, Seq<char>),
)
    requires
        are_in_order(files),
        0 <= at <= files.len(),
        forall|k: int| 0 <= k < at ==> !(path_order((#[trigger] files[k]).0, new.0) is Greater),
        at < files.len() ==> path_order(files[at].0, new.0) is Greater,
    ensures
        are_in_order(files.insert(at, new)),
{
    let r = files.insert(at, new);
    assert forall|i: int, j: int| 0 <= i < j < r.len() implies !(path_order(
        (#[trigger] r[i]).0,
        (#[trigger] r[j]).0,
    ) is Greater) by {
        if j == at {
            assert(r[i] == files[i]);
        } else if i == at {
            assert(r[j] == files[j - 1]);
            crate::ordered::path_order_flip(files[at].0, new.0);
            if j - 1 > at {
                assert(!(path_order(files[at].0, files[j - 1].0) is Greater));
                lemma_not_less(files[j - 1].0, files[at].0, new.0);
            }
            crate::ordered::path_order_flip(files[j - 1].0, new.0);
        } else {
            let x = if i < at { i } else { i - 1 };
            let y = if j < at { j } else { j - 1 };
            assert(r[i] == files[x]);
            assert(r[j] == files[y]);
        }
    }
}

} // verus!
