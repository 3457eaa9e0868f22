//! Build tags, and the worlds in which different files are compiled.

use vstd::prelude::*;

use crate::ast::{BuildConstraintExprNode, SourceFileNode};
use crate::files::file_name;
use crate::ordered::{compare_listings, increasing, lemma_increasing_determined, listing_order,
    listing_order_equal, listing_order_flip, listing_order_transitive, same_text, Order, Ordered,
    OrderedMap, OrderedSet};
use crate::text::{alphanumeric, all_digits, bounded_number, cut_at_last, find_char, first_of,
    is_alphanumeric, number, prefix_removed, split_at_last, strip_prefix, strip_suffix,
    suffix_removed};

verus! {

/// How many distinct build permutations are analyzed unless configured
/// otherwise.
pub const DEFAULT_MAX_BUILD_PERMUTATIONS: usize = 256;

/// The highest supported version of Go, major and minor.
pub const SUPPORTED_GO_MAJOR: usize = 1;

pub const SUPPORTED_GO_MINOR: usize = 26;

/// Whether a tag names a compiler. No two of them are active at a time.
pub open spec fn names_compiler(s: Seq<char>) -> bool {
    s == "gc"@ || s == "gccgo"@
}

/// Whether a tag names an operating system. No two of them are active at a
/// time.
pub open spec fn names_goos(s: Seq<char>) -> bool {
    ||| s == "aix"@
    ||| s == "android"@
    ||| s == "darwin"@
    ||| s == "dragonfly"@
    ||| s == "freebsd"@
    ||| s == "hurd"@
    ||| s == "illumos"@
    ||| s == "ios"@
    ||| s == "js"@
    ||| s == "linux"@
    ||| s == "nacl"@
    ||| s == "netbsd"@
    ||| s == "openbsd"@
    ||| s == "plan9"@
    ||| s == "solaris"@
    ||| s == "wasip1"@
    ||| s == "windows"@
    ||| s == "zos"@
}

/// Whether a tag names an architecture. No two of them are active at a time.
pub open spec fn names_goarch(s: Seq<char>) -> bool {
    ||| s == "386"@
    ||| s == "amd64"@
    ||| s == "amd64p32"@
    ||| s == "arm"@
    ||| s == "arm64"@
    ||| s == "arm64be"@
    ||| s == "armbe"@
    ||| s == "loong64"@
    ||| s == "mips"@
    ||| s == "mips64"@
    ||| s == "mips64le"@
    ||| s == "mips64p32"@
    ||| s == "mips64p32le"@
    ||| s == "mipsle"@
    ||| s == "ppc"@
    ||| s == "ppc64"@
    ||| s == "ppc64le"@
    ||| s == "riscv"@
    ||| s == "riscv64"@
    ||| s == "s390"@
    ||| s == "s390x"@
    ||| s == "sparc"@
    ||| s == "sparc64"@
    ||| s == "wasm"@
}

/// Whether a tag names a compiler.
pub fn is_known_compiler(name: &str) -> (r: bool)
    ensures
        r == names_compiler(name@),
{
    same_text(name, "gc") || same_text(name, "gccgo")
}

/// Whether a tag names an operating system.
pub fn is_known_goos(name: &str) -> (r: bool)
    ensures
        r == names_goos(name@),
{
    same_text(name, "aix") || same_text(name, "android") || same_text(name, "darwin") || same_text(
        name,
        "dragonfly",
    ) || same_text(name, "freebsd") || same_text(name, "hurd") || same_text(name, "illumos")
        || same_text(name, "ios") || same_text(name, "js") || same_text(name, "linux") || same_text(
        name,
        "nacl",
    ) || same_text(name, "netbsd") || same_text(name, "openbsd") || same_text(name, "plan9")
        || same_text(name, "solaris") || same_text(name, "wasip1") || same_text(name, "windows")
        || same_text(name, "zos")
}

/// Whether a tag names an architecture.
pub fn is_known_goarch(name: &str) -> (r: bool)
    ensures
        r == names_goarch(name@),
{
    same_text(name, "386") || same_text(name, "amd64") || same_text(name, "amd64p32") || same_text(
        name,
        "arm",
    ) || same_text(name, "arm64") || same_text(name, "arm64be") || same_text(name, "armbe")
        || same_text(name, "loong64") || same_text(name, "mips") || same_text(name, "mips64")
        || same_text(name, "mips64le") || same_text(name, "mips64p32") || same_text(
        name,
        "mips64p32le",
    ) || same_text(name, "mipsle") || same_text(name, "ppc") || same_text(name, "ppc64")
        || same_text(name, "ppc64le") || same_text(name, "riscv") || same_text(name, "riscv64")
        || same_text(name, "s390") || same_text(name, "s390x") || same_text(name, "sparc")
        || same_text(name, "sparc64") || same_text(name, "wasm")
}

/// The version that a tag such as `go1.21` names, if it names one.
pub open spec fn go_version(s: Seq<char>) -> Option<(nat, nat)> {
    match prefix_removed(s, "go"@) {
        None => None,
        Some(rest) => {
            let i = first_of(rest, '.');
            if i < rest.len() && i > 0 && i + 1 < rest.len() && all_digits(rest.take(i))
                && all_digits(rest.skip(i + 1)) {
                Some((number(rest.take(i)), number(rest.skip(i + 1))))
            } else {
                None
            }
        },
    }
}

/// Whether a version of Go is not newer than the highest supported one.
pub open spec fn supports_version(v: (nat, nat)) -> bool {
    v.0 < SUPPORTED_GO_MAJOR || (v.0 == SUPPORTED_GO_MAJOR && v.1 <= SUPPORTED_GO_MINOR)
}

/// Whether a tag names a version of Go, and if so, whether that is supported.
fn version_tag(name: &str) -> (r: Option<bool>)
    ensures
        r is Some <==> go_version(name@) is Some,
        r matches Some(b) ==> b == supports_version(go_version(name@)->0),
{
    let rest = match strip_prefix(name, "go") {
        Some(rest) => rest,
        None => {
            return None;
        },
    };
    let n: usize = rest.unicode_len();
    let i: usize = find_char(rest, '.');
    if i == 0 || i >= n || i + 1 >= n {
        return None;
    }
    let major = rest.substring_char(0, i);
    let minor = rest.substring_char(i + 1, n);
    proof {
        assert(major@ =~= rest@.take(i as int));
        assert(minor@ =~= rest@.skip(i + 1));
    }
    match (
        bounded_number(major, SUPPORTED_GO_MAJOR),
        bounded_number(minor, SUPPORTED_GO_MINOR),
    ) {
        (Some(x), Some(y)) => Some(
            x < SUPPORTED_GO_MAJOR || (x == SUPPORTED_GO_MAJOR && y <= SUPPORTED_GO_MINOR),
        ),
        _ => None,
    }
}

/// Whether a tag names a version of Go.
pub fn is_go_version_tag(name: &str) -> (r: bool)
    ensures
        r == (go_version(name@) is Some),
{
    version_tag(name).is_some()
}

/// Whether the word `ignore` stands in a text at a position, with no letter or
/// digit right before or after it.
pub open spec fn ignore_at(s: Seq<char>, i: int) -> bool {
    &&& 0 <= i
    &&& i + 6 <= s.len()
    &&& s.subrange(i, i + 6) == "ignore"@
    &&& i == 0 || !alphanumeric(s[i - 1])
    &&& i + 6 == s.len() || !alphanumeric(s[i + 6])
}

/// Whether one of the words of a tag is `ignore`. By convention such a tag is
/// never satisfied.
pub open spec fn is_ignore_tag(s: Seq<char>) -> bool {
    exists|i: int| ignore_at(s, i)
}

/// Whether one of the words of a tag is `ignore`.
pub fn is_conventional_ignore_tag(name: &str) -> (r: bool)
    ensures
        r == is_ignore_tag(name@),
{
    let n: usize = name.unicode_len();
    let mut i: usize = 0;
    while i < n && n - i >= 6
        invariant
            n == name@.len(),
            i <= n,
            forall|k: int| 0 <= k < i ==> !ignore_at(name@, k),
        decreases n - i,
    {
        if same_text(name.substring_char(i, i + 6), "ignore") {
            let free_before = if i == 0 {
                true
            } else {
                !is_alphanumeric(name.get_char(i - 1))
            };
            let free_after = if i + 6 == n {
                true
            } else {
                !is_alphanumeric(name.get_char(i + 6))
            };
            if free_before && free_after {
                proof {
                    assert(ignore_at(name@, i as int));
                }
                return true;
            }
        }
        i = i + 1;
    }
    proof {
        assert forall|k: int| !ignore_at(name@, k) by {}
    }
    false
}

/// The tags that the name of a file demands: the operating system or the
/// architecture, or both, after the last underscores of its stem.
pub open spec fn implicit_tags(filename: Seq<char>) -> Seq<Seq<char>> {
    match suffix_removed(filename, ".go"@) {
        None => Seq::<Seq<char>>::empty(),
        Some(stem) => {
            let stem = match suffix_removed(stem, "_test"@) {
                Some(t) => t,
                None => stem,
            };
            match cut_at_last(stem, '_') {
                None => Seq::<Seq<char>>::empty(),
                Some((head, last)) => match cut_at_last(head, '_') {
                    Some((prefix, mid)) if prefix.len() > 0 && names_goos(mid) && names_goarch(
                        last,
                    ) => seq![mid, last],
                    _ => if head.len() > 0 && (names_goos(last) || names_goarch(last)) {
                        seq![last]
                    } else {
                        Seq::<Seq<char>>::empty()
                    },
                },
            }
        },
    }
}

/// The views of a list of texts.
pub open spec fn views(v: Seq<String>) -> Seq<Seq<char>> {
    v.map_values(|s: String| s@)
}

/// The tags that the name of a file demands, if any.
pub fn implicit_tags_from_filename(filename: &str) -> (r: Option<Vec<String>>)
    ensures
        r is None <==> implicit_tags(filename@).len() == 0,
        r matches Some(v) ==> views(v@) == implicit_tags(filename@),
{
    let stem = match strip_suffix(filename, ".go") {
        Some(stem) => stem,
        None => {
            return None;
        },
    };
    let stem = match strip_suffix(stem, "_test") {
        Some(t) => t,
        None => stem,
    };
    let (head, last) = match split_at_last(stem, '_') {
        Some(p) => p,
        None => {
            return None;
        },
    };
    if let Some((prefix, mid)) = split_at_last(head, '_') {
        if !prefix.is_empty() && is_known_goos(mid) && is_known_goarch(last) {
            let mut v: Vec<String> = Vec::new();
            v.push(mid.to_owned());
            v.push(last.to_owned());
            proof {
                assert(views(v@) =~= seq![mid@, last@]);
            }
            return Some(v);
        }
    }
    if !head.is_empty() && (is_known_goos(last) || is_known_goarch(last)) {
        let mut v: Vec<String> = Vec::new();
        v.push(last.to_owned());
        proof {
            assert(views(v@) =~= seq![last@]);
        }
        return Some(v);
    }
    None
}

/// Whether a condition holds of a set of active tags. Tags for supported
/// versions of Go always hold, those for other versions and conventional ignore
/// tags never do.
pub open spec fn satisfies(tags: Set<Seq<char>>, expr: BuildConstraintExprNode) -> bool
    decreases expr,
{
    match expr {
        BuildConstraintExprNode::Tag(name) => !is_ignore_tag(name@) && match go_version(name@) {
            Some(v) => supports_version(v),
            None => tags.contains(name@),
        },
        BuildConstraintExprNode::Not(inner) => !satisfies(tags, *inner),
        BuildConstraintExprNode::And(clauses) => forall|i: int|
            0 <= i < clauses@.len() ==> satisfies(tags, #[trigger] clauses@[i]),
        BuildConstraintExprNode::Or(clauses) => exists|i: int|
            0 <= i < clauses@.len() && satisfies(tags, #[trigger] clauses@[i]),
    }
}

/// Whether a condition can hold only if a conventional ignore tag does.
pub open spec fn demands_ignore(expr: BuildConstraintExprNode) -> bool
    decreases expr,
{
    match expr {
        BuildConstraintExprNode::Tag(name) => is_ignore_tag(name@),
        BuildConstraintExprNode::Not(_) => false,
        BuildConstraintExprNode::And(clauses) => exists|i: int|
            0 <= i < clauses@.len() && demands_ignore(#[trigger] clauses@[i]),
        BuildConstraintExprNode::Or(clauses) => forall|i: int|
            0 <= i < clauses@.len() ==> demands_ignore(#[trigger] clauses@[i]),
    }
}

/// The tags on whose activity a condition depends.
pub open spec fn tags_in(expr: BuildConstraintExprNode) -> Set<Seq<char>>
    decreases expr,
{
    match expr {
        BuildConstraintExprNode::Tag(name) => if go_version(name@) is Some || is_ignore_tag(name@) {
            Set::<Seq<char>>::empty()
        } else {
            set![name@]
        },
        BuildConstraintExprNode::Not(inner) => tags_in(*inner),
        BuildConstraintExprNode::And(clauses) => tags_in_all(clauses@),
        BuildConstraintExprNode::Or(clauses) => tags_in_all(clauses@),
    }
}

/// The tags on whose activity some conditions depend.
pub open spec fn tags_in_all(clauses: Seq<BuildConstraintExprNode>) -> Set<Seq<char>>
    decreases clauses,
{
    Set::new(
        |t: Seq<char>|
            exists|i: int| 0 <= i < clauses.len() && tags_in(#[trigger] clauses[i]).contains(t),
    )
}

/// Whether a condition can hold only if a conventional ignore tag does.
pub fn should_ignore(expr: &BuildConstraintExprNode) -> (r: bool)
    ensures
        r == demands_ignore(*expr),
    decreases expr,
{
    match expr {
        BuildConstraintExprNode::Tag(name) => is_conventional_ignore_tag(name.as_str()),
        BuildConstraintExprNode::Not(_) => false,
        BuildConstraintExprNode::And(clauses) => {
            let n: usize = clauses.len();
            let mut i: usize = 0;
            while i < n
                invariant
                    i <= n,
                    n == clauses@.len(),
                    expr is And,
                    expr->And_0 == *clauses,
                    decreases_to!(expr => clauses),
                    forall|k: int| 0 <= k < i ==> !demands_ignore(#[trigger] clauses@[k]),
                decreases n - i,
            {
                if should_ignore(&clauses[i]) {
                    proof {
                        assert(exists|k: int|
                            0 <= k < clauses@.len() && demands_ignore(#[trigger] clauses@[k]));
                    }
                    return true;
                }
                i = i + 1;
            }
            false
        },
        BuildConstraintExprNode::Or(clauses) => {
            let n: usize = clauses.len();
            let mut i: usize = 0;
            while i < n
                invariant
                    i <= n,
                    n == clauses@.len(),
                    expr is Or,
                    expr->Or_0 == *clauses,
                    decreases_to!(expr => clauses),
                    forall|k: int| 0 <= k < i ==> demands_ignore(#[trigger] clauses@[k]),
                decreases n - i,
            {
                if !should_ignore(&clauses[i]) {
                    proof {
                        if demands_ignore(*expr) {
                            assert(demands_ignore(clauses@[i as int]));
                        }
                    }
                    return false;
                }
                i = i + 1;
            }
            true
        },
    }
}

/// Adds the tags on whose activity a condition depends.
fn collect_tags_in_expr(expr: &BuildConstraintExprNode, mentioned: &mut OrderedSet<String>)
    ensures
        final(mentioned)@ == old(mentioned)@.union(tags_in(*expr)),
    decreases expr,
{
    match expr {
        BuildConstraintExprNode::Tag(name) => {
            if is_go_version_tag(name.as_str()) || is_conventional_ignore_tag(name.as_str()) {
                proof {
                    assert(mentioned@.union(tags_in(*expr)) =~= mentioned@);
                }
            } else {
                let ghost before = mentioned@;
                mentioned.insert(name.clone());
                proof {
                    assert(before.union(tags_in(*expr)) =~= before.insert(name@));
                }
            }
        },
        BuildConstraintExprNode::Not(inner) => {
            collect_tags_in_expr(&**inner, mentioned);
        },
        BuildConstraintExprNode::And(clauses) | BuildConstraintExprNode::Or(clauses) => {
            let ghost before = mentioned@;
            let n: usize = clauses.len();
            let mut i: usize = 0;
            proof {
                assert(tags_in_all(clauses@.take(0)) =~= Set::<Seq<char>>::empty());
                assert(before.union(tags_in_all(clauses@.take(0))) =~= before);
            }
            while i < n
                invariant
                    i <= n,
                    n == clauses@.len(),
                    decreases_to!(expr => clauses),
                    mentioned@ == before.union(tags_in_all(clauses@.take(i as int))),
                decreases n - i,
            {
                collect_tags_in_expr(&clauses[i], mentioned);
                proof {
                    lemma_tags_in_all_take(clauses@, i as int);
                    assert(mentioned@ =~= before.union(tags_in_all(clauses@.take(i + 1))));
                }
                i = i + 1;
            }
            proof {
                assert(clauses@.take(n as int) =~= clauses@);
            }
        },
    }
}

proof fn lemma_tags_in_all_take(clauses: Seq<BuildConstraintExprNode>, i: int)
    requires
        0 <= i < clauses.len(),
    ensures
        tags_in_all(clauses.take(i + 1)) == tags_in_all(clauses.take(i)).union(tags_in(clauses[i])),
{
    let a = clauses.take(i + 1);
    let b = clauses.take(i);
    assert forall|t: Seq<char>| tags_in_all(a).contains(t) == (tags_in_all(b).contains(t)
        || tags_in(clauses[i]).contains(t)) by {
        if tags_in_all(a).contains(t) {
            let k = choose|k: int| 0 <= k < a.len() && tags_in(#[trigger] a[k]).contains(t);
            if k < i {
                assert(tags_in(b[k]).contains(t));
            }
        }
        if tags_in_all(b).contains(t) {
            let k = choose|k: int| 0 <= k < b.len() && tags_in(#[trigger] b[k]).contains(t);
            assert(tags_in(a[k]).contains(t));
        }
        if tags_in(clauses[i]).contains(t) {
            assert(tags_in(a[i]).contains(t));
        }
    }
    assert(tags_in_all(a) =~= tags_in_all(b).union(tags_in(clauses[i])));
}

/// The build tags that are active in one world.
#[derive(Debug)]
pub struct ActiveTags {
    tags: OrderedSet<String>,
}

impl View for ActiveTags {
    type V = Seq<Seq<char>>;

    /// The tags in increasing order.
    closed spec fn view(&self) -> Seq<Seq<char>> {
        self.tags.listing()
    }
}

impl Ordered for ActiveTags {
    open spec fn order(a: Seq<Seq<char>>, b: Seq<Seq<char>>) -> Order {
        listing_order::<String>(a, b)
    }

    proof fn order_equal(a: Seq<Seq<char>>, b: Seq<Seq<char>>) {
        listing_order_equal::<String>(a, b);
    }

    proof fn order_flip(a: Seq<Seq<char>>, b: Seq<Seq<char>>) {
        listing_order_flip::<String>(a, b);
    }

    proof fn order_transitive(a: Seq<Seq<char>>, b: Seq<Seq<char>>, c: Seq<Seq<char>>) {
        listing_order_transitive::<String>(a, b, c);
    }

    fn compare(&self, other: &Self) -> (r: Order) {
        compare_listings(&self.tags, &other.tags)
    }

    fn duplicate(&self) -> (r: Self) {
        ActiveTags { tags: self.tags.duplicate() }
    }
}

/// Whether a world of active tags admits a file: the tags that its name demands
/// are active, and its build constraint, if any, holds.
pub open spec fn admits(
    tags: Set<Seq<char>>,
    path: Seq<char>,
    constraint: Option<BuildConstraintExprNode>,
) -> bool {
    match file_name(path) {
        None => false,
        Some(name) => {
            &&& forall|i: int|
                0 <= i < implicit_tags(name).len() ==> tags.contains(
                    #[trigger] implicit_tags(name)[i],
                )
            &&& match constraint {
                Some(expr) => satisfies(tags, expr),
                None => true,
            }
        },
    }
}

impl ActiveTags {
    /// The world in which the given tags are active.
    fn new(tags: OrderedSet<String>) -> (r: Self)
        ensures
            r@ == tags.listing(),
    {
        ActiveTags { tags }
    }

    /// Whether a tag is active.
    pub fn contains(&self, tag: &str) -> (r: bool)
        ensures
            r == self@.contains(tag@),
    {
        let _n: usize = self.tags.len();
        self.tags.contains(&tag.to_owned())
    }

    /// The active tags in increasing order.
    pub fn iter(&self) -> (r: Vec<String>)
        ensures
            views(r@) == self@,
            increasing::<String>(self@),
    {
        let n: usize = self.tags.len();
        let mut r: Vec<String> = Vec::new();
        let mut i: usize = 0;
        while i < n
            invariant
                i <= n,
                n == self@.len(),
                self@ == self.tags.listing(),
                r@.len() == i,
                forall|k: int| 0 <= k < i ==> (#[trigger] r@[k])@ == self@[k],
            decreases n - i,
        {
            r.push(self.tags.at(i).clone());
            i = i + 1;
        }
        proof {
            assert(views(r@) =~= self@);
        }
        r
    }

    /// Whether a file is compiled in this world.
    pub fn admits_file(
        &self,
        virtual_path: &str,
        constraint: &Option<BuildConstraintExprNode>,
    ) -> (r: bool)
        ensures
            r == admits(self@.to_set(), virtual_path@, *constraint),
    {
        let name = match crate::files::name_of_file(virtual_path) {
            Some(name) => name,
            None => {
                return false;
            },
        };
        if let Some(demanded) = implicit_tags_from_filename(name) {
            let n: usize = demanded.len();
            let mut i: usize = 0;
            while i < n
                invariant
                    i <= n,
                    n == demanded@.len(),
                    file_name(virtual_path@) == Some(name@),
                    views(demanded@) == implicit_tags(name@),
                    n == implicit_tags(name@).len(),
                    forall|k: int|
                        0 <= k < i ==> self@.to_set().contains(#[trigger] implicit_tags(name@)[k]),
                decreases n - i,
            {
                proof {
                    assert(implicit_tags(name@)[i as int] == demanded@[i as int]@);
                }
                if !self.contains(demanded[i].as_str()) {
                    proof {
                        let tags = self@.to_set();
                        let demanded_tags = implicit_tags(name@);
                        assert(!tags.contains(demanded_tags[i as int]));
                        if admits(tags, virtual_path@, *constraint) {
                            assert(file_name(virtual_path@)->0 == name@);
                            assert(tags.contains(implicit_tags(name@)[i as int]));
                        }
                    }
                    return false;
                }
                i = i + 1;
            }
        }
        match constraint {
            Some(expr) => self.evaluate_expr(expr),
            None => true,
        }
    }

    /// Whether a condition holds in this world.
    pub fn evaluate_expr(&self, expr: &BuildConstraintExprNode) -> (r: bool)
        ensures
            r == satisfies(self@.to_set(), *expr),
        decreases expr,
    {
        match expr {
            BuildConstraintExprNode::Tag(name) => {
                if is_conventional_ignore_tag(name.as_str()) {
                    false
                } else {
                    proof {
                        assert(self@.to_set().contains(name@) == self@.contains(name@));
                    }
                    match version_tag(name.as_str()) {
                        Some(supported) => supported,
                        None => self.contains(name.as_str()),
                    }
                }
            },
            BuildConstraintExprNode::Not(inner) => !self.evaluate_expr(&**inner),
            BuildConstraintExprNode::And(clauses) => {
                let n: usize = clauses.len();
                let mut i: usize = 0;
                while i < n
                    invariant
                        i <= n,
                        n == clauses@.len(),
                        expr is And,
                    expr->And_0 == *clauses,
                    decreases_to!(expr => clauses),
                        forall|k: int|
                            0 <= k < i ==> satisfies(self@.to_set(), #[trigger] clauses@[k]),
                    decreases n - i,
                {
                    if !self.evaluate_expr(&clauses[i]) {
                        proof {
                            if satisfies(self@.to_set(), *expr) {
                                assert(satisfies(self@.to_set(), clauses@[i as int]));
                            }
                        }
                        return false;
                    }
                    i = i + 1;
                }
                true
            },
            BuildConstraintExprNode::Or(clauses) => {
                let n: usize = clauses.len();
                let mut i: usize = 0;
                while i < n
                    invariant
                        i <= n,
                        n == clauses@.len(),
                        expr is Or,
                    expr->Or_0 == *clauses,
                    decreases_to!(expr => clauses),
                        forall|k: int|
                            0 <= k < i ==> !satisfies(self@.to_set(), #[trigger] clauses@[k]),
                    decreases n - i,
                {
                    if self.evaluate_expr(&clauses[i]) {
                        proof {
                            assert(exists|k: int|
                                0 <= k < clauses@.len() && satisfies(
                                    self@.to_set(),
                                    #[trigger] clauses@[k],
                                ));
                        }
                        return true;
                    }
                    i = i + 1;
                }
                false
            },
        }
    }

    /// How the tags are written.
    pub fn to_text(&self) -> (r: String)
        ensures
            r@ == "["@ + texts_joined(self@, ", "@) + "]"@,
    {
        let n: usize = self.tags.len();
        let mut inner = "".to_owned();
        let mut i: usize = 0;
        while i < n
            invariant
                i <= n,
                n == self@.len(),
                self@ == self.tags.listing(),
                inner@ == texts_joined(self@.take(i as int), ", "@),
            decreases n - i,
        {
            let text = self.tags.at(i).clone();
            proof {
                assert(self@.take(i + 1).drop_last() =~= self@.take(i as int));
                assert(self@.take(i + 1).last() == self@[i as int]);
            }
            if i == 0 {
                inner = text;
            } else {
                inner = inner.concat(", ").concat(text.as_str());
            }
            i = i + 1;
        }
        proof {
            assert(self@.take(n as int) =~= self@);
        }
        "[".to_owned().concat(inner.as_str()).concat("]")
    }
}

/// Texts with a separator between them.
pub open spec fn texts_joined(texts: Seq<Seq<char>>, separator: Seq<char>) -> Seq<char>
    decreases texts.len(),
{
    if texts.len() == 0 {
        ""@
    } else if texts.len() == 1 {
        texts[0]
    } else {
        texts_joined(texts.drop_last(), separator) + separator + texts.last()
    }
}

/// The files that some world may admit: all but those whose constraint demands
/// a conventional ignore tag.
pub open spec fn eligible(parsed: Map<Seq<char>, SourceFileNode>) -> Set<Seq<char>> {
    Set::new(
        |path: Seq<char>|
            parsed.dom().contains(path) && !(parsed[path].build_constraint matches Some(expr)
                && demands_ignore(expr)),
    )
}

/// The tags on whose activity it depends whether a file is compiled.
pub open spec fn tags_of_file(path: Seq<char>, file: SourceFileNode) -> Set<Seq<char>> {
    let explicit = match file.build_constraint {
        Some(expr) => tags_in(expr),
        None => Set::<Seq<char>>::empty(),
    };
    match file_name(path) {
        Some(name) => explicit.union(implicit_tags(name).to_set()),
        None => explicit,
    }
}

/// The tags on whose activity it depends which files are compiled.
pub open spec fn mentioned_tags(parsed: Map<Seq<char>, SourceFileNode>) -> Set<Seq<char>> {
    Set::new(
        |t: Seq<char>|
            exists|path: Seq<char>| #[trigger]
                eligible(parsed).contains(path) && tags_of_file(path, parsed[path]).contains(t),
    )
}

/// Whether at most one of the tags of a world names an operating system, at
/// most one an architecture and at most one a compiler.
pub open spec fn is_plausible(world: Seq<Seq<char>>) -> bool {
    forall|i: int, j: int|
        0 <= i < j < world.len() ==> !(names_goos(#[trigger] world[i]) && names_goos(
            #[trigger] world[j],
        )) && !(names_goarch(world[i]) && names_goarch(world[j])) && !(names_compiler(world[i])
            && names_compiler(world[j]))
}

/// Whether a list of tags is one of the worlds to look at: in increasing order,
/// made of tags that matter, and plausible.
pub open spec fn is_world(
    parsed: Map<Seq<char>, SourceFileNode>,
    world: Seq<Seq<char>>,
) -> bool {
    &&& increasing::<String>(world)
    &&& world.to_set().subset_of(mentioned_tags(parsed))
    &&& is_plausible(world)
}

/// The files that are compiled in a world.
pub open spec fn admitted_in(
    parsed: Map<Seq<char>, SourceFileNode>,
    world: Seq<Seq<char>>,
) -> Set<Seq<char>> {
    Set::new(
        |path: Seq<char>|
            eligible(parsed).contains(path) && admits(
                world.to_set(),
                path,
                parsed[path].build_constraint,
            ),
    )
}

/// The different sets of files that are compiled in some world, but for the
/// empty one.
pub open spec fn admitted_sets(parsed: Map<Seq<char>, SourceFileNode>) -> Set<Set<Seq<char>>> {
    Set::new(
        |files: Set<Seq<char>>|
            files != Set::<Seq<char>>::empty() && exists|world: Seq<Seq<char>>| #[trigger]
                is_world(parsed, world) && admitted_in(parsed, world) == files,
    )
}

/// The worlds in which exactly the given files are compiled.
pub open spec fn worlds_admitting(
    parsed: Map<Seq<char>, SourceFileNode>,
    files: Set<Seq<char>>,
) -> Set<Seq<Seq<char>>> {
    Set::new(
        |world: Seq<Seq<char>>| is_world(parsed, world) && admitted_in(parsed, world) == files,
    )
}

/// A set of files that are compiled together, and the worlds in which they are.
#[derive(Debug)]
pub struct BuildPermutation {
    pub tag_sets: OrderedSet<ActiveTags>,
    pub admitted: OrderedSet<String>,
}

/// The number that a row of bits stands for, the first being the lowest.
pub open spec fn binary(bits: Seq<bool>) -> nat
    decreases bits.len(),
{
    if bits.len() == 0 {
        0
    } else {
        (if bits[0] {
            1nat
        } else {
            0nat
        }) + 2 * binary(bits.drop_first())
    }
}

/// A row of bits, each turned over.
pub open spec fn turned_over(bits: Seq<bool>) -> Seq<bool> {
    bits.map_values(|b: bool| !b)
}

proof fn lemma_binary_carry(before: Seq<bool>, after: Seq<bool>, p: int)
    requires
        0 <= p < before.len(),
        before.len() == after.len(),
        forall|i: int| 0 <= i < p ==> #[trigger] before[i],
        forall|i: int| 0 <= i < p ==> !#[trigger] after[i],
        !before[p],
        after[p],
        forall|i: int| p < i < before.len() ==> #[trigger] before[i] == after[i],
    ensures
        binary(after) == binary(before) + 1,
        binary(turned_over(after)) + 1 == binary(turned_over(before)),
    decreases p,
{
    let b = before.drop_first();
    let a = after.drop_first();
    assert(turned_over(before).drop_first() =~= turned_over(b));
    assert(turned_over(after).drop_first() =~= turned_over(a));
    if p == 0 {
        assert(b =~= a);
    } else {
        assert(before[0] && !after[0]);
        lemma_binary_carry(b, a, p - 1);
    }
}

proof fn lemma_binary_all_set(bits: Seq<bool>, other: Seq<bool>)
    requires
        bits.len() == other.len(),
        forall|i: int| 0 <= i < bits.len() ==> #[trigger] bits[i],
    ensures
        binary(other) <= binary(bits),
    decreases bits.len(),
{
    if bits.len() > 0 {
        assert(bits[0]);
        lemma_binary_all_set(bits.drop_first(), other.drop_first());
    }
}

proof fn lemma_binary_determines(a: Seq<bool>, b: Seq<bool>)
    requires
        a.len() == b.len(),
        binary(a) == binary(b),
    ensures
        a == b,
    decreases a.len(),
{
    if a.len() > 0 {
        assert(a[0] == b[0]);
        lemma_binary_determines(a.drop_first(), b.drop_first());
        assert(a =~= seq![a[0]] + a.drop_first());
        assert(b =~= seq![b[0]] + b.drop_first());
    } else {
        assert(a =~= b);
    }
}

/// Moves on to the next row of bits, counting in binary. After the last one
/// all bits are off again and the result is `false`.
pub fn advance_assignment(enabled: &mut Vec<bool>) -> (r: bool)
    ensures
        final(enabled)@.len() == old(enabled)@.len(),
        r == (exists|i: int| 0 <= i < old(enabled)@.len() && !#[trigger] old(enabled)@[i]),
        r ==> binary(final(enabled)@) == binary(old(enabled)@) + 1,
        r ==> binary(turned_over(final(enabled)@)) < binary(turned_over(old(enabled)@)),
        !r ==> forall|i: int| 0 <= i < final(enabled)@.len() ==> !#[trigger] final(enabled)@[i],
{
    let ghost before = enabled@;
    let n: usize = enabled.len();
    let mut i: usize = 0;
    while i < n
        invariant
            i <= n,
            n == before.len(),
            enabled@.len() == n,
            before == old(enabled)@,
            forall|k: int| 0 <= k < i ==> #[trigger] before[k],
            forall|k: int| 0 <= k < i ==> !#[trigger] enabled@[k],
            forall|k: int| i <= k < n ==> #[trigger] enabled@[k] == before[k],
        decreases n - i,
    {
        if enabled[i] {
            enabled.set(i, false);
        } else {
            enabled.set(i, true);
            proof {
                assert(!before[i as int]);
                lemma_binary_carry(before, enabled@, i as int);
            }
            return true;
        }
        i = i + 1;
    }
    false
}

/// Which of a list of tags a world has.
spec fn code(dims: Seq<Seq<char>>, world: Seq<Seq<char>>) -> Seq<bool> {
    Seq::new(dims.len(), |i: int| world.contains(dims[i]))
}

/// The tags of a list whose bits are on.
spec fn chosen(dims: Seq<Seq<char>>, bits: Seq<bool>) -> Set<Seq<char>> {
    Set::new(|t: Seq<char>| exists|i: int| 0 <= i < dims.len() && bits[i] && #[trigger] dims[i] == t)
}

/// The paths of the files that some world may admit.
fn eligible_files(parsed: &OrderedMap<String, SourceFileNode>) -> (r: Vec<usize>)
    ensures
        forall|k: int|
            0 <= k < r@.len() ==> #[trigger] r@[k] < parsed.listing().len() && eligible(
                parsed@,
            ).contains(parsed.listing()[r@[k] as int]),
        forall|path: Seq<char>|
            eligible(parsed@).contains(path) ==> exists|k: int|
                0 <= k < r@.len() && parsed.listing()[#[trigger] r@[k] as int] == path,
{
    let n: usize = parsed.len();
    let mut r: Vec<usize> = Vec::new();
    let mut i: usize = 0;
    while i < n
        invariant
            i <= n,
            n == parsed.listing().len(),
            forall|k: int|
                0 <= k < r@.len() ==> #[trigger] r@[k] < parsed.listing().len() && eligible(
                    parsed@,
                ).contains(parsed.listing()[r@[k] as int]),
            forall|m: int|
                0 <= m < i && eligible(parsed@).contains(#[trigger] parsed.listing()[m])
                    ==> exists|k: int| 0 <= k < r@.len() && #[trigger] r@[k] == m,
        decreases n - i,
    {
        let file = parsed.value_at(i);
        let ignored = match &file.build_constraint {
            Some(expr) => should_ignore(expr),
            None => false,
        };
        let ghost before = r@;
        if !ignored {
            r.push(i);
            proof {
                assert(r@[before.len() as int] == i);
            }
        }
        proof {
            assert forall|m: int|
                0 <= m < i + 1 && eligible(parsed@).contains(
                    #[trigger] parsed.listing()[m],
                ) implies exists|k: int| 0 <= k < r@.len() && #[trigger] r@[k] == m by {
                if m < i {
                    let k = choose|k: int| 0 <= k < before.len() && #[trigger] before[k] == m;
                    assert(r@[k] == m);
                }
            }
        }
        i = i + 1;
    }
    proof {
        assert forall|path: Seq<char>| eligible(parsed@).contains(path) implies exists|k: int|
            0 <= k < r@.len() && parsed.listing()[#[trigger] r@[k] as int] == path by {
            assert(parsed.listing().contains(path));
            let m = choose|m: int| 0 <= m < parsed.listing().len() && parsed.listing()[m] == path;
            assert(eligible(parsed@).contains(parsed.listing()[m]));
            let k = choose|k: int| 0 <= k < r@.len() && #[trigger] r@[k] == m;
            assert(parsed.listing()[r@[k] as int] == path);
        }
    }
    r
}

/// The tags on whose activity it depends which files are compiled.
fn collect_mentioned_tags(
    parsed: &OrderedMap<String, SourceFileNode>,
    files: &Vec<usize>,
) -> (r: OrderedSet<String>)
    requires
        forall|k: int|
            0 <= k < files@.len() ==> #[trigger] files@[k] < parsed.listing().len() && eligible(
                parsed@,
            ).contains(parsed.listing()[files@[k] as int]),
        forall|path: Seq<char>|
            eligible(parsed@).contains(path) ==> exists|k: int|
                0 <= k < files@.len() && parsed.listing()[#[trigger] files@[k] as int] == path,
    ensures
        r@ == mentioned_tags(parsed@),
{
    let mut mentioned: OrderedSet<String> = OrderedSet::new();
    let n: usize = files.len();
    let mut i: usize = 0;
    while i < n
        invariant
            i <= n,
            n == files@.len(),
            forall|k: int|
                0 <= k < files@.len() ==> #[trigger] files@[k] < parsed.listing().len() && eligible(
                    parsed@,
                ).contains(parsed.listing()[files@[k] as int]),
            forall|t: Seq<char>| #[trigger]
                mentioned@.contains(t) <==> exists|k: int|
                    0 <= k < i && tags_of_file(
                        parsed.listing()[#[trigger] files@[k] as int],
                        parsed@[parsed.listing()[files@[k] as int]],
                    ).contains(t),
        decreases n - i,
    {
        let at: usize = files[i];
        let path = parsed.key_at(at);
        let file = parsed.value_at(at);
        let ghost before = mentioned@;
        let ghost own = tags_of_file(path@, *file);
        if let Some(expr) = &file.build_constraint {
            collect_tags_in_expr(expr, &mut mentioned);
        }
        if let Some(name) = crate::files::name_of_file(path.as_str()) {
            if let Some(tags) = implicit_tags_from_filename(name) {
                let ghost wanted = implicit_tags(name@);
                let extra = OrderedSet::from_vec(tags);
                mentioned = mentioned.union(&extra);
                proof {
                    assert(extra@ =~= wanted.to_set());
                }
            } else {
                proof {
                    assert(implicit_tags(name@).to_set() =~= Set::<Seq<char>>::empty());
                }
            }
        }
        proof {
            assert(mentioned@ =~= before.union(own));
            assert forall|t: Seq<char>| #[trigger] mentioned@.contains(t) <==> exists|k: int|
                0 <= k < i + 1 && tags_of_file(
                    parsed.listing()[#[trigger] files@[k] as int],
                    parsed@[parsed.listing()[files@[k] as int]],
                ).contains(t) by {
                if before.contains(t) {
                    let k = choose|k: int|
                        0 <= k < i && tags_of_file(
                            parsed.listing()[#[trigger] files@[k] as int],
                            parsed@[parsed.listing()[files@[k] as int]],
                        ).contains(t);
                    assert(0 <= k < i + 1);
                }
                if own.contains(t) {
                    assert(files@[i as int] == at);
                }
            }
        }
        i = i + 1;
    }
    proof {
        assert forall|t: Seq<char>| mentioned@.contains(t) == mentioned_tags(parsed@).contains(t) by {
            if mentioned@.contains(t) {
                let k = choose|k: int|
                    0 <= k < n && tags_of_file(
                        parsed.listing()[#[trigger] files@[k] as int],
                        parsed@[parsed.listing()[files@[k] as int]],
                    ).contains(t);
                assert(eligible(parsed@).contains(parsed.listing()[files@[k] as int]));
            }
            if mentioned_tags(parsed@).contains(t) {
                let path = choose|path: Seq<char>| #[trigger]
                    eligible(parsed@).contains(path) && tags_of_file(path, parsed@[path]).contains(
                        t,
                    );
                let k = choose|k: int|
                    0 <= k < files@.len() && parsed.listing()[#[trigger] files@[k] as int] == path;
                assert(tags_of_file(
                    parsed.listing()[files@[k] as int],
                    parsed@[parsed.listing()[files@[k] as int]],
                ).contains(t));
            }
        }
        assert(mentioned@ =~= mentioned_tags(parsed@));
    }
    mentioned
}

/// Whether at most one of the tags of a world names an operating system, at
/// most one an architecture and at most one a compiler.
fn plausible(world: &ActiveTags) -> (r: bool)
    ensures
        r == is_plausible(world@),
{
    let n: usize = world.tags.len();
    let ghost w = world@;
    let mut goos: bool = false;
    let mut goarch: bool = false;
    let mut compiler: bool = false;
    let mut i: usize = 0;
    while i < n
        invariant
            i <= n,
            n == w.len(),
            w == world@,
            w == world.tags.listing(),
            goos <==> exists|k: int| 0 <= k < i && names_goos(#[trigger] w[k]),
            goarch <==> exists|k: int| 0 <= k < i && names_goarch(#[trigger] w[k]),
            compiler <==> exists|k: int| 0 <= k < i && names_compiler(#[trigger] w[k]),
            forall|a: int, b: int|
                0 <= a < b < i ==> !(names_goos(#[trigger] w[a]) && names_goos(#[trigger] w[b]))
                    && !(names_goarch(w[a]) && names_goarch(w[b])) && !(names_compiler(w[a])
                    && names_compiler(w[b])),
        decreases n - i,
    {
        let tag = world.tags.at(i).as_str();
        let is_os = is_known_goos(tag);
        let is_arch = is_known_goarch(tag);
        let is_comp = is_known_compiler(tag);
        if (is_os && goos) || (is_arch && goarch) || (is_comp && compiler) {
            proof {
                assert(w[i as int] == tag@);
                if is_os && goos {
                    let k = choose|k: int| 0 <= k < i && names_goos(#[trigger] w[k]);
                    assert(names_goos(w[k]) && names_goos(w[i as int]));
                } else if is_arch && goarch {
                    let k = choose|k: int| 0 <= k < i && names_goarch(#[trigger] w[k]);
                    assert(names_goarch(w[k]) && names_goarch(w[i as int]));
                } else {
                    let k = choose|k: int| 0 <= k < i && names_compiler(#[trigger] w[k]);
                    assert(names_compiler(w[k]) && names_compiler(w[i as int]));
                }
                assert(!is_plausible(w));
            }
            return false;
        }
        proof {
            assert(w[i as int] == tag@);
            assert forall|a: int, b: int| 0 <= a < b < i + 1 implies !(names_goos(#[trigger] w[a])
                && names_goos(#[trigger] w[b])) && !(names_goarch(w[a]) && names_goarch(w[b]))
                && !(names_compiler(w[a]) && names_compiler(w[b])) by {
                if b == i {
                    assert(names_goos(w[a]) ==> goos);
                    assert(names_goarch(w[a]) ==> goarch);
                    assert(names_compiler(w[a]) ==> compiler);
                }
            }
        }
        let ghost (g0, a0, c0) = (goos, goarch, compiler);
        goos = goos || is_os;
        goarch = goarch || is_arch;
        compiler = compiler || is_comp;
        proof {
            if g0 {
                let k = choose|k: int| 0 <= k < i && names_goos(#[trigger] w[k]);
                assert(0 <= k < i + 1);
            }
            if a0 {
                let k = choose|k: int| 0 <= k < i && names_goarch(#[trigger] w[k]);
                assert(0 <= k < i + 1);
            }
            if c0 {
                let k = choose|k: int| 0 <= k < i && names_compiler(#[trigger] w[k]);
                assert(0 <= k < i + 1);
            }
        }
        i = i + 1;
    }
    true
}

/// The world of the tags whose bits are on.
fn world_of(dims: &OrderedSet<String>, enabled: &Vec<bool>) -> (r: ActiveTags)
    requires
        enabled@.len() == dims.listing().len(),
    ensures
        increasing::<String>(r@),
        r@.to_set() == chosen(dims.listing(), enabled@),
{
    let mut tags: OrderedSet<String> = OrderedSet::new();
    let n: usize = dims.len();
    let ghost d = dims.listing();
    let mut i: usize = 0;
    while i < n
        invariant
            i <= n,
            n == d.len(),
            d == dims.listing(),
            enabled@.len() == n,
            forall|t: Seq<char>| #[trigger]
                tags@.contains(t) <==> exists|k: int|
                    0 <= k < i && enabled@[k] && #[trigger] d[k] == t,
        decreases n - i,
    {
        let ghost before = tags@;
        if enabled[i] {
            tags.insert(dims.at(i).clone());
        }
        proof {
            assert forall|t: Seq<char>| #[trigger] tags@.contains(t) <==> exists|k: int|
                0 <= k < i + 1 && enabled@[k] && #[trigger] d[k] == t by {
                if before.contains(t) {
                    let k = choose|k: int| 0 <= k < i && enabled@[k] && #[trigger] d[k] == t;
                    assert(0 <= k < i + 1);
                }
                if enabled@[i as int] && t == d[i as int] {
                    assert(0 <= i < i + 1);
                }
            }
        }
        i = i + 1;
    }
    let _m: usize = tags.len();
    proof {
        assert(tags@ =~= chosen(d, enabled@));
    }
    ActiveTags::new(tags)
}

/// The files that are compiled in a world.
fn files_admitted(
    parsed: &OrderedMap<String, SourceFileNode>,
    files: &Vec<usize>,
    world: &ActiveTags,
) -> (r: OrderedSet<String>)
    requires
        forall|k: int|
            0 <= k < files@.len() ==> #[trigger] files@[k] < parsed.listing().len() && eligible(
                parsed@,
            ).contains(parsed.listing()[files@[k] as int]),
        forall|path: Seq<char>|
            eligible(parsed@).contains(path) ==> exists|k: int|
                0 <= k < files@.len() && parsed.listing()[#[trigger] files@[k] as int] == path,
    ensures
        r@ == admitted_in(parsed@, world@),
{
    let mut admitted: OrderedSet<String> = OrderedSet::new();
    let n: usize = files.len();
    let ghost tags = world@.to_set();
    let mut i: usize = 0;
    while i < n
        invariant
            i <= n,
            n == files@.len(),
            tags == world@.to_set(),
            forall|k: int|
                0 <= k < files@.len() ==> #[trigger] files@[k] < parsed.listing().len() && eligible(
                    parsed@,
                ).contains(parsed.listing()[files@[k] as int]),
            forall|path: Seq<char>| #[trigger]
                admitted@.contains(path) <==> exists|k: int|
                    0 <= k < i && parsed.listing()[#[trigger] files@[k] as int] == path && admits(
                        tags,
                        path,
                        parsed@[path].build_constraint,
                    ),
        decreases n - i,
    {
        let at: usize = files[i];
        let path = parsed.key_at(at);
        let file = parsed.value_at(at);
        let ghost before = admitted@;
        let yes = world.admits_file(path.as_str(), &file.build_constraint);
        if yes {
            admitted.insert(path.clone());
        }
        proof {
            assert forall|p: Seq<char>| #[trigger] admitted@.contains(p) <==> exists|k: int|
                0 <= k < i + 1 && parsed.listing()[#[trigger] files@[k] as int] == p && admits(
                    tags,
                    p,
                    parsed@[p].build_constraint,
                ) by {
                if before.contains(p) {
                    let k = choose|k: int|
                        0 <= k < i && parsed.listing()[#[trigger] files@[k] as int] == p && admits(
                            tags,
                            p,
                            parsed@[p].build_constraint,
                        );
                    assert(0 <= k < i + 1);
                }
                if yes && p == path@ {
                    assert(files@[i as int] == at);
                }
            }
        }
        i = i + 1;
    }
    proof {
        assert forall|p: Seq<char>| admitted@.contains(p) == admitted_in(parsed@, world@).contains(
            p,
        ) by {
            if admitted_in(parsed@, world@).contains(p) {
                let k = choose|k: int|
                    0 <= k < files@.len() && parsed.listing()[#[trigger] files@[k] as int] == p;
                assert(0 <= k < n);
            }
        }
        assert(admitted@ =~= admitted_in(parsed@, world@));
    }
    admitted
}

/// Whether permutations account for the worlds with a code below a bound.
spec fn accounts_for(
    parsed: Map<Seq<char>, SourceFileNode>,
    dims: Seq<Seq<char>>,
    perms: Seq<BuildPermutation>,
    bound: nat,
) -> bool {
    &&& forall|i: int|
        0 <= i < perms.len() ==> (#[trigger] perms[i]).admitted@ != Set::<Seq<char>>::empty()
    &&& forall|i: int|
        0 <= i < perms.len() ==> (#[trigger] perms[i]).tag_sets@ != Set::<Seq<Seq<char>>>::empty()
    &&& forall|i: int, w: Seq<Seq<char>>|
        0 <= i < perms.len() ==> (#[trigger] perms[i].tag_sets@.contains(w) <==> is_world(parsed, w)
            && binary(code(dims, w)) < bound && admitted_in(parsed, w) == perms[i].admitted@)
    &&& forall|i: int, j: int|
        0 <= i < perms.len() && 0 <= j < perms.len() && (#[trigger] perms[i]).admitted@ == (
        #[trigger] perms[j]).admitted@ ==> i == j
    &&& forall|w: Seq<Seq<char>>|
        #[trigger] is_world(parsed, w) && binary(code(dims, w)) < bound && admitted_in(parsed, w)
            != Set::<Seq<char>>::empty() ==> exists|i: int|
            0 <= i < perms.len() && (#[trigger] perms[i]).admitted@ == admitted_in(parsed, w)
}

/// A world is determined by its code.
proof fn lemma_code_determines(dims: Seq<Seq<char>>, bits: Seq<bool>, w: Seq<Seq<char>>, v: Seq<Seq<char>>)
    requires
        bits.len() == dims.len(),
        increasing::<String>(dims),
        increasing::<String>(w),
        w.to_set() == chosen(dims, bits),
        increasing::<String>(v),
        v.to_set().subset_of(dims.to_set()),
    ensures
        code(dims, w) == bits,
        code(dims, v) == bits <==> v == w,
{
    crate::ordered::lemma_increasing_distinct::<String>(dims);
    assert forall|i: int| 0 <= i < dims.len() implies w.contains(dims[i]) == bits[i] by {
        assert(w.to_set().contains(dims[i]) == w.contains(dims[i]));
        if bits[i] {
            assert(chosen(dims, bits).contains(dims[i]));
        }
        if chosen(dims, bits).contains(dims[i]) {
            let k = choose|k: int| 0 <= k < dims.len() && bits[k] && #[trigger] dims[k] == dims[i];
            assert(k == i);
        }
    }
    assert(code(dims, w) =~= bits);
    if code(dims, v) == bits {
        assert forall|t: Seq<char>| v.to_set().contains(t) == w.to_set().contains(t) by {
            if v.to_set().contains(t) {
                assert(dims.to_set().contains(t));
                assert(dims.contains(t));
                let i = choose|i: int| 0 <= i < dims.len() && dims[i] == t;
                assert(v.contains(dims[i]));
                assert(code(dims, v)[i]);
                assert(w.contains(dims[i]));
            }
            if w.to_set().contains(t) {
                let i = choose|i: int| 0 <= i < dims.len() && bits[i] && #[trigger] dims[i] == t;
                assert(code(dims, v)[i]);
                assert(v.contains(dims[i]));
            }
        }
        assert(v.to_set() =~= w.to_set());
        lemma_increasing_determined::<String>(v, w);
    }
}

/// What is known of the world with the code that comes next.
spec fn is_next_world(
    parsed: Map<Seq<char>, SourceFileNode>,
    dims: Seq<Seq<char>>,
    bound: nat,
    w0: Seq<Seq<char>>,
) -> bool {
    &&& is_world(parsed, w0)
    &&& forall|w: Seq<Seq<char>>| #[trigger]
        is_world(parsed, w) ==> (binary(code(dims, w)) < bound + 1 <==> (binary(code(dims, w)) < bound
            || w == w0))
    &&& !(binary(code(dims, w0)) < bound)
}

proof fn lemma_next_world(
    parsed: Map<Seq<char>, SourceFileNode>,
    dims: Seq<Seq<char>>,
    bits: Seq<bool>,
    w0: Seq<Seq<char>>,
)
    requires
        bits.len() == dims.len(),
        increasing::<String>(dims),
        dims.to_set() == mentioned_tags(parsed),
        increasing::<String>(w0),
        w0.to_set() == chosen(dims, bits),
    ensures
        is_plausible(w0) ==> is_next_world(parsed, dims, binary(bits), w0),
        !is_plausible(w0) ==> forall|w: Seq<Seq<char>>| #[trigger]
            is_world(parsed, w) ==> (binary(code(dims, w)) < binary(bits) + 1 <==> binary(
                code(dims, w),
            ) < binary(bits)),
{
    assert forall|t: Seq<char>| chosen(dims, bits).contains(t) implies dims.to_set().contains(t) by {
        let i = choose|i: int| 0 <= i < dims.len() && bits[i] && #[trigger] dims[i] == t;
        assert(dims.contains(t));
    }
    assert forall|w: Seq<Seq<char>>| #[trigger] is_world(parsed, w) implies (binary(code(dims, w))
        < binary(bits) + 1 <==> (binary(code(dims, w)) < binary(bits) || w == w0)) by {
        lemma_code_determines(dims, bits, w0, w);
        if binary(code(dims, w)) == binary(bits) {
            lemma_binary_determines(code(dims, w), bits);
        }
    }
    lemma_code_determines(dims, bits, w0, w0);
}

#[verifier::rlimit(40)]
proof fn lemma_world_joins(
    parsed: Map<Seq<char>, SourceFileNode>,
    dims: Seq<Seq<char>>,
    bound: nat,
    w0: Seq<Seq<char>>,
    before: Seq<BuildPermutation>,
    after: Seq<BuildPermutation>,
    i: int,
)
    requires
        accounts_for(parsed, dims, before, bound),
        is_next_world(parsed, dims, bound, w0),
        0 <= i < before.len(),
        after.len() == before.len(),
        forall|a: int| 0 <= a < before.len() && a != i ==> #[trigger] after[a] == before[a],
        after[i].admitted@ == before[i].admitted@,
        after[i].tag_sets@ == before[i].tag_sets@.insert(w0),
        before[i].admitted@ == admitted_in(parsed, w0),
    ensures
        accounts_for(parsed, dims, after, bound + 1),
{
    assert forall|a: int| 0 <= a < after.len() implies (#[trigger] after[a]).admitted@
        == before[a].admitted@ by {
        if a != i {
            assert(after[a] == before[a]);
        }
    }
    assert forall|a: int| 0 <= a < after.len() implies (#[trigger] after[a]).admitted@ != Set::<
        Seq<char>,
    >::empty() by {
        assert(before[a].admitted@ != Set::<Seq<char>>::empty());
    }
    assert forall|a: int, w: Seq<Seq<char>>| 0 <= a < after.len() implies (
    #[trigger] after[a].tag_sets@.contains(w) <==> is_world(parsed, w) && binary(code(dims, w))
        < bound + 1 && admitted_in(parsed, w) == after[a].admitted@) by {
        assert(before[a].tag_sets@.contains(w) <==> is_world(parsed, w) && binary(code(dims, w))
            < bound && admitted_in(parsed, w) == before[a].admitted@);
        if a != i {
            assert(after[a] == before[a]);
            assert(before[a].admitted@ != before[i].admitted@);
        }
    }
    assert forall|a: int| 0 <= a < after.len() implies (#[trigger] after[a]).tag_sets@ != Set::<
        Seq<Seq<char>>,
    >::empty() by {
        assert(before[a].tag_sets@ != Set::<Seq<Seq<char>>>::empty());
        if a == i {
            assert(after[a].tag_sets@.contains(w0));
        }
    }
    assert forall|a: int, b: int|
        0 <= a < after.len() && 0 <= b < after.len() && (#[trigger] after[a]).admitted@ == (
        #[trigger] after[b]).admitted@ implies a == b by {
        assert(before[a].admitted@ == before[b].admitted@);
    }
    assert forall|w: Seq<Seq<char>>|
        #[trigger] is_world(parsed, w) && binary(code(dims, w)) < bound + 1 && admitted_in(parsed, w)
            != Set::<Seq<char>>::empty() implies exists|a: int|
        0 <= a < after.len() && (#[trigger] after[a]).admitted@ == admitted_in(parsed, w) by {
        if w == w0 {
            assert(after[i].admitted@ == admitted_in(parsed, w));
        } else {
            let a = choose|a: int|
                0 <= a < before.len() && (#[trigger] before[a]).admitted@ == admitted_in(parsed, w);
            assert(after[a].admitted@ == admitted_in(parsed, w));
        }
    }
}

#[verifier::rlimit(40)]
proof fn lemma_world_opens(
    parsed: Map<Seq<char>, SourceFileNode>,
    dims: Seq<Seq<char>>,
    bound: nat,
    w0: Seq<Seq<char>>,
    before: Seq<BuildPermutation>,
    fresh: BuildPermutation,
)
    requires
        accounts_for(parsed, dims, before, bound),
        is_next_world(parsed, dims, bound, w0),
        forall|a: int|
            0 <= a < before.len() ==> (#[trigger] before[a]).admitted@ != admitted_in(parsed, w0),
        fresh.admitted@ == admitted_in(parsed, w0),
        fresh.admitted@ != Set::<Seq<char>>::empty(),
        fresh.tag_sets@ == set![w0],
    ensures
        accounts_for(parsed, dims, before.push(fresh), bound + 1),
{
    let after = before.push(fresh);
    let n = before.len() as int;
    assert forall|a: int| 0 <= a < n implies #[trigger] after[a] == before[a] by {}
    assert forall|a: int| 0 <= a < after.len() implies (#[trigger] after[a]).admitted@ != Set::<
        Seq<char>,
    >::empty() by {
        if a < n {
            assert(before[a].admitted@ != Set::<Seq<char>>::empty());
        }
    }
    assert forall|a: int, w: Seq<Seq<char>>| 0 <= a < after.len() implies (
    #[trigger] after[a].tag_sets@.contains(w) <==> is_world(parsed, w) && binary(code(dims, w))
        < bound + 1 && admitted_in(parsed, w) == after[a].admitted@) by {
        if a < n {
            assert(before[a].tag_sets@.contains(w) <==> is_world(parsed, w) && binary(
                code(dims, w),
            ) < bound && admitted_in(parsed, w) == before[a].admitted@);
            assert(before[a].admitted@ != admitted_in(parsed, w0));
        } else if is_world(parsed, w) && binary(code(dims, w)) < bound && admitted_in(parsed, w)
            == fresh.admitted@ {
            let b = choose|b: int|
                0 <= b < before.len() && (#[trigger] before[b]).admitted@ == admitted_in(parsed, w);
            assert(before[b].admitted@ != admitted_in(parsed, w0));
        }
    }
    assert forall|a: int| 0 <= a < after.len() implies (#[trigger] after[a]).tag_sets@ != Set::<
        Seq<Seq<char>>,
    >::empty() by {
        if a < n {
            assert(before[a].tag_sets@ != Set::<Seq<Seq<char>>>::empty());
        } else {
            assert(after[a].tag_sets@.contains(w0));
        }
    }
    assert forall|a: int, b: int|
        0 <= a < after.len() && 0 <= b < after.len() && (#[trigger] after[a]).admitted@ == (
        #[trigger] after[b]).admitted@ implies a == b by {
        if a < n && b < n {
            assert(before[a].admitted@ == before[b].admitted@);
        } else if a < n {
            assert(before[a].admitted@ != admitted_in(parsed, w0));
        } else if b < n {
            assert(before[b].admitted@ != admitted_in(parsed, w0));
        }
    }
    assert forall|w: Seq<Seq<char>>|
        #[trigger] is_world(parsed, w) && binary(code(dims, w)) < bound + 1 && admitted_in(parsed, w)
            != Set::<Seq<char>>::empty() implies exists|a: int|
        0 <= a < after.len() && (#[trigger] after[a]).admitted@ == admitted_in(parsed, w) by {
        if w == w0 {
            assert(after[n].admitted@ == admitted_in(parsed, w));
        } else {
            let a = choose|a: int|
                0 <= a < before.len() && (#[trigger] before[a]).admitted@ == admitted_in(parsed, w);
            assert(after[a].admitted@ == admitted_in(parsed, w));
        }
    }
}

/// Adds a world to the permutation of the files that it admits.
fn account_for_world(
    perms: &mut Vec<BuildPermutation>,
    world: ActiveTags,
    admitted: OrderedSet<String>,
    Ghost(parsed): Ghost<Map<Seq<char>, SourceFileNode>>,
    Ghost(dims): Ghost<Seq<Seq<char>>>,
    Ghost(bound): Ghost<nat>,
)
    requires
        accounts_for(parsed, dims, old(perms)@, bound),
        is_next_world(parsed, dims, bound, world@),
        admitted@ == admitted_in(parsed, world@),
        admitted@ != Set::<Seq<char>>::empty(),
    ensures
        accounts_for(parsed, dims, final(perms)@, bound + 1),
{
    let ghost before = perms@;
    let ghost w0 = world@;
    let ghost files = admitted@;
    let n: usize = perms.len();
    let mut i: usize = 0;
    while i < n && !perms[i].admitted.same(&admitted)
        invariant
            i <= n,
            n == perms@.len(),
            perms@ == before,
            files == admitted@,
            forall|k: int| 0 <= k < i ==> (#[trigger] before[k]).admitted@ != files,
        decreases n - i,
    {
        i = i + 1;
    }
    if i < n {
        let BuildPermutation { tag_sets, admitted: kept } = perms.remove(i);
        let mut tag_sets = tag_sets;
        tag_sets.insert(world);
        perms.insert(i, BuildPermutation { tag_sets, admitted: kept });
        proof {
            lemma_world_joins(parsed, dims, bound, w0, before, perms@, i as int);
        }
    } else {
        let mut tag_sets: OrderedSet<ActiveTags> = OrderedSet::new();
        tag_sets.insert(world);
        proof {
            assert(tag_sets@ =~= set![w0]);
        }
        perms.push(BuildPermutation { tag_sets, admitted });
        proof {
            lemma_world_opens(parsed, dims, bound, w0, before, perms@.last());
            assert(perms@ =~= before.push(perms@.last()));
        }
    }
}

/// Whether permutations account for every world.
pub open spec fn are_permutations(
    parsed: Map<Seq<char>, SourceFileNode>,
    perms: Seq<BuildPermutation>,
) -> bool {
    &&& forall|i: int|
        0 <= i < perms.len() ==> admitted_sets(parsed).contains((#[trigger] perms[i]).admitted@)
    &&& forall|i: int|
        0 <= i < perms.len() ==> (#[trigger] perms[i]).tag_sets@ == worlds_admitting(
            parsed,
            perms[i].admitted@,
        )
    &&& forall|i: int, j: int|
        0 <= i < perms.len() && 0 <= j < perms.len() && (#[trigger] perms[i]).admitted@ == (
        #[trigger] perms[j]).admitted@ ==> i == j
    &&& forall|files: Set<Seq<char>>| #[trigger]
        admitted_sets(parsed).contains(files) ==> exists|i: int|
            0 <= i < perms.len() && (#[trigger] perms[i]).admitted@ == files
}

/// Whether permutations are in increasing order of their worlds.
pub open spec fn are_sorted(perms: Seq<BuildPermutation>) -> bool {
    forall|i: int, j: int|
        0 <= i < j < perms.len() ==> listing_order::<ActiveTags>(
            (#[trigger] perms[i]).tag_sets.listing(),
            (#[trigger] perms[j]).tag_sets.listing(),
        ) is Less
}

/// There are as many permutations as there are sets of files to admit.
proof fn lemma_count_permutations(
    parsed: Map<Seq<char>, SourceFileNode>,
    perms: Seq<BuildPermutation>,
)
    requires
        are_permutations(parsed, perms),
    ensures
        admitted_sets(parsed).finite(),
        admitted_sets(parsed).len() == perms.len(),
{
    let all = perms.map_values(|p: BuildPermutation| p.admitted@);
    assert(all.no_duplicates()) by {
        assert forall|i: int, j: int| 0 <= i < all.len() && 0 <= j < all.len() && i != j implies all[i]
            != all[j] by {
            assert(perms[i].admitted@ == all[i] && perms[j].admitted@ == all[j]);
        }
    }
    assert(all.to_set() =~= admitted_sets(parsed)) by {
        assert forall|files: Set<Seq<char>>| all.contains(files) == admitted_sets(parsed).contains(
            files,
        ) by {
            if all.contains(files) {
                let i = choose|i: int| 0 <= i < all.len() && all[i] == files;
                assert(perms[i].admitted@ == files);
            }
            if admitted_sets(parsed).contains(files) {
                let i = choose|i: int|
                    0 <= i < perms.len() && (#[trigger] perms[i]).admitted@ == files;
                assert(all[i] == files);
            }
        }
    }
    all.unique_seq_to_set();
    vstd::seq_lib::seq_to_set_is_finite(all);
}

proof fn lemma_all_accounted_for(
    parsed: Map<Seq<char>, SourceFileNode>,
    dims: Seq<Seq<char>>,
    perms: Seq<BuildPermutation>,
    bound: nat,
)
    requires
        accounts_for(parsed, dims, perms, bound),
        forall|w: Seq<Seq<char>>| #[trigger]
            is_world(parsed, w) ==> binary(code(dims, w)) < bound,
    ensures
        are_permutations(parsed, perms),
{
    assert forall|i: int| 0 <= i < perms.len() implies (#[trigger] perms[i]).tag_sets@
        == worlds_admitting(parsed, perms[i].admitted@) by {
        assert(perms[i].tag_sets@ =~= worlds_admitting(parsed, perms[i].admitted@));
    }
    assert forall|i: int| 0 <= i < perms.len() implies admitted_sets(parsed).contains(
        (#[trigger] perms[i]).admitted@,
    ) by {
        let sets = perms[i].tag_sets@;
        assert(sets != Set::<Seq<Seq<char>>>::empty());
        assert(exists|w: Seq<Seq<char>>| sets.contains(w)) by {
            if forall|w: Seq<Seq<char>>| !sets.contains(w) {
                assert(sets =~= Set::<Seq<Seq<char>>>::empty());
            }
        }
        let w = choose|w: Seq<Seq<char>>| sets.contains(w);
        assert(perms[i].tag_sets@.contains(w));
        assert(is_world(parsed, w));
    }
    assert forall|files: Set<Seq<char>>| #[trigger]
        admitted_sets(parsed).contains(files) implies exists|i: int|
        0 <= i < perms.len() && (#[trigger] perms[i]).admitted@ == files by {
        let w = choose|w: Seq<Seq<char>>| #[trigger]
            is_world(parsed, w) && admitted_in(parsed, w) == files;
        assert(is_world(parsed, w) && binary(code(dims, w)) < bound);
    }
}

/// Moving one permutation to another place changes nothing but their order.
proof fn lemma_moved(
    parsed: Map<Seq<char>, SourceFileNode>,
    perms: Seq<BuildPermutation>,
    from: int,
    to: int,
)
    requires
        are_permutations(parsed, perms),
        0 <= to <= from < perms.len(),
    ensures
        are_permutations(parsed, perms.remove(from).insert(to, perms[from])),
{
    let after = perms.remove(from).insert(to, perms[from]);
    let origin = |k: int|
        if k < to {
            k
        } else if k == to {
            from
        } else if k <= from {
            k - 1
        } else {
            k
        };
    assert forall|k: int| 0 <= k < after.len() implies 0 <= origin(k) < perms.len() && #[trigger] after[k]
        == perms[origin(k)] by {}
    assert forall|i: int, j: int|
        0 <= i < after.len() && 0 <= j < after.len() && (#[trigger] after[i]).admitted@ == (
        #[trigger] after[j]).admitted@ implies i == j by {
        assert(perms[origin(i)].admitted@ == perms[origin(j)].admitted@);
    }
    assert forall|files: Set<Seq<char>>| #[trigger]
        admitted_sets(parsed).contains(files) implies exists|i: int|
        0 <= i < after.len() && (#[trigger] after[i]).admitted@ == files by {
        let k = choose|k: int| 0 <= k < perms.len() && (#[trigger] perms[k]).admitted@ == files;
        let i = if k < to {
            k
        } else if k == from {
            to
        } else if k < from {
            k + 1
        } else {
            k
        };
        assert(after[i].admitted@ == files);
    }
}

/// Puts permutations into increasing order of their worlds.
fn sort_permutations(
    perms: &mut Vec<BuildPermutation>,
    Ghost(parsed): Ghost<Map<Seq<char>, SourceFileNode>>,
)
    requires
        are_permutations(parsed, old(perms)@),
    ensures
        are_permutations(parsed, final(perms)@),
        are_sorted(final(perms)@),
        final(perms)@.len() == old(perms)@.len(),
{
    let n: usize = perms.len();
    let mut i: usize = 0;
    while i < n
        invariant
            i <= n,
            n == perms@.len(),
            are_permutations(parsed, perms@),
            are_sorted(perms@.take(i as int)),
        decreases n - i,
    {
        let ghost before = perms@;
        let ghost sorted = before.take(i as int);
        let mut p: usize = i;
        let mut placed: bool = false;
        while p > 0 && !placed
            invariant
                p <= i < n,
                n == perms@.len(),
                perms@ == before,
                sorted == before.take(i as int),
                are_permutations(parsed, before),
                are_sorted(sorted),
                forall|k: int|
                    p <= k < i ==> listing_order::<ActiveTags>(
                        before[i as int].tag_sets.listing(),
                        (#[trigger] before[k]).tag_sets.listing(),
                    ) is Less,
                placed ==> p > 0 && listing_order::<ActiveTags>(
                    before[p - 1].tag_sets.listing(),
                    before[i as int].tag_sets.listing(),
                ) is Less,
            decreases p + (if placed {
                0int
            } else {
                1int
            }),
        {
            let o = compare_listings(&perms[p - 1].tag_sets, &perms[i].tag_sets);
            let _a: usize = perms[p - 1].tag_sets.len();
            let _b: usize = perms[i].tag_sets.len();
            proof {
                let x = before[p - 1];
                let y = before[i as int];
                listing_order_equal::<ActiveTags>(x.tag_sets.listing(), y.tag_sets.listing());
                listing_order_flip::<ActiveTags>(x.tag_sets.listing(), y.tag_sets.listing());
                if o is Equal {
                    assert(x.tag_sets@ == y.tag_sets@);
                    assert(admitted_sets(parsed).contains(x.admitted@));
                    let w = choose|w: Seq<Seq<char>>| #[trigger]
                        is_world(parsed, w) && admitted_in(parsed, w) == x.admitted@;
                    assert(worlds_admitting(parsed, x.admitted@).contains(w));
                    assert(worlds_admitting(parsed, y.admitted@).contains(w));
                    assert(before[p - 1].admitted@ == before[i as int].admitted@);
                    assert(false);
                }
            }
            match o {
                Order::Less => {
                    placed = true;
                },
                _ => {
                    p = p - 1;
                },
            }
        }
        let moved = perms.remove(i);
        perms.insert(p, moved);
        proof {
            lemma_moved(parsed, before, i as int, p as int);
            assert(perms@ =~= before.remove(i as int).insert(p as int, before[i as int]));
            let after = perms@.take(i + 1);
            assert forall|a: int, b: int| 0 <= a < b < after.len() implies listing_order::<
                ActiveTags,
            >(
                (#[trigger] after[a]).tag_sets.listing(),
                (#[trigger] after[b]).tag_sets.listing(),
            ) is Less by {
                let x = if a < p { a } else { a - 1 };
                let y = if b < p { b } else { b - 1 };
                if a == p {
                    assert(after[b] == before[y]);
                } else if b == p {
                    assert(after[a] == before[a]);
                    if a < p - 1 {
                        assert(sorted[a] == before[a] && sorted[p - 1] == before[p - 1]);
                        listing_order_transitive::<ActiveTags>(
                            before[a].tag_sets.listing(),
                            before[p - 1].tag_sets.listing(),
                            before[i as int].tag_sets.listing(),
                        );
                    }
                } else {
                    assert(after[a] == before[x] && after[b] == before[y]);
                    assert(sorted[x] == before[x] && sorted[y] == before[y]);
                }
            }
        }
        i = i + 1;
    }
    proof {
        assert(perms@.take(n as int) =~= perms@);
    }
}

/// The different sets of files that are compiled together, each with the worlds
/// in which they are. If there are more of them than allowed, their number is
/// returned instead.
pub fn enumerate_build_permutations(
    parsed: &OrderedMap<String, SourceFileNode>,
    max_permutations: usize,
) -> (r: Result<Vec<BuildPermutation>, usize>)
    ensures
        admitted_sets(parsed@).finite(),
        r is Err <==> admitted_sets(parsed@).len() > max_permutations,
        r matches Err(count) ==> count == admitted_sets(parsed@).len(),
        r matches Ok(perms) ==> are_permutations(parsed@, perms@) && are_sorted(perms@)
            && perms@.len() == admitted_sets(parsed@).len(),
{
    let files = eligible_files(parsed);
    let free_dims = collect_mentioned_tags(parsed, &files);
    let n: usize = free_dims.len();
    let ghost dims = free_dims.listing();
    let mut enabled: Vec<bool> = Vec::new();
    let mut k: usize = 0;
    while k < n
        invariant
            k <= n,
            enabled@.len() == k,
            forall|i: int| 0 <= i < k ==> !#[trigger] enabled@[i],
        decreases n - k,
    {
        enabled.push(false);
        k = k + 1;
    }
    proof {
        lemma_binary_all_off(enabled@);
    }
    let mut perms: Vec<BuildPermutation> = Vec::new();
    let mut more: bool = true;
    let ghost mut bound: nat = 0;
    while more
        invariant
            enabled@.len() == dims.len(),
            dims == free_dims.listing(),
            increasing::<String>(dims),
            dims.to_set() == mentioned_tags(parsed@),
            accounts_for(parsed@, dims, perms@, bound),
            more ==> bound == binary(enabled@),
            !more ==> forall|w: Seq<Seq<char>>| #[trigger]
                is_world(parsed@, w) ==> binary(code(dims, w)) < bound,
            forall|k: int|
                0 <= k < files@.len() ==> #[trigger] files@[k] < parsed.listing().len() && eligible(
                    parsed@,
                ).contains(parsed.listing()[files@[k] as int]),
            forall|path: Seq<char>|
                eligible(parsed@).contains(path) ==> exists|k: int|
                    0 <= k < files@.len() && parsed.listing()[#[trigger] files@[k] as int] == path,
        decreases (if more {
            binary(turned_over(enabled@)) + 1
        } else {
            0
        }),
    {
        let world = world_of(&free_dims, &enabled);
        proof {
            lemma_next_world(parsed@, dims, enabled@, world@);
        }
        let likely = plausible(&world);
        if likely {
            let admitted = files_admitted(parsed, &files, &world);
            if admitted.len() == 0 {
                proof {
                    assert(admitted@ =~= Set::<Seq<char>>::empty());
                    lemma_world_ignored(parsed@, dims, bound, perms@);
                }
            } else {
                account_for_world(
                    &mut perms,
                    world,
                    admitted,
                    Ghost(parsed@),
                    Ghost(dims),
                    Ghost(bound),
                );
            }
        } else {
            proof {
                lemma_world_ignored(parsed@, dims, bound, perms@);
            }
        }
        let ghost bits = enabled@;
        more = advance_assignment(&mut enabled);
        proof {
            bound = bound + 1;
            if !more {
                assert forall|w: Seq<Seq<char>>| #[trigger] is_world(parsed@, w) implies binary(
                    code(dims, w),
                ) < bound by {
                    lemma_binary_all_set(bits, code(dims, w));
                }
            }
        }
    }
    proof {
        lemma_all_accounted_for(parsed@, dims, perms@, bound);
        lemma_count_permutations(parsed@, perms@);
    }
    if perms.len() > max_permutations {
        return Err(perms.len());
    }
    sort_permutations(&mut perms, Ghost(parsed@));
    Ok(perms)
}

proof fn lemma_binary_all_off(bits: Seq<bool>)
    requires
        forall|i: int| 0 <= i < bits.len() ==> !#[trigger] bits[i],
    ensures
        binary(bits) == 0,
    decreases bits.len(),
{
    if bits.len() > 0 {
        assert(!bits[0]);
        lemma_binary_all_off(bits.drop_first());
    }
}

/// A world that admits nothing, or that is not plausible, changes nothing.
proof fn lemma_world_ignored(
    parsed: Map<Seq<char>, SourceFileNode>,
    dims: Seq<Seq<char>>,
    bound: nat,
    perms: Seq<BuildPermutation>,
)
    requires
        accounts_for(parsed, dims, perms, bound),
        forall|w: Seq<Seq<char>>| #[trigger]
            is_world(parsed, w) && binary(code(dims, w)) < bound + 1 && !(binary(code(dims, w))
                < bound) ==> admitted_in(parsed, w) == Set::<Seq<char>>::empty(),
    ensures
        accounts_for(parsed, dims, perms, bound + 1),
{
    assert forall|a: int, w: Seq<Seq<char>>| 0 <= a < perms.len() implies (
    #[trigger] perms[a].tag_sets@.contains(w) <==> is_world(parsed, w) && binary(code(dims, w))
        < bound + 1 && admitted_in(parsed, w) == perms[a].admitted@) by {
        assert(perms[a].admitted@ != Set::<Seq<char>>::empty());
    }
}

/// The tags that are active in every world of some permutations.
pub open spec fn always_active(perms: Seq<BuildPermutation>) -> Set<Seq<char>> {
    Set::new(
        |t: Seq<char>|
            {
                &&& exists|i: int, w: Seq<Seq<char>>|
                    0 <= i < perms.len() && #[trigger] perms[i].tag_sets@.contains(w)
                &&& forall|i: int, w: Seq<Seq<char>>|
                    0 <= i < perms.len() && #[trigger] perms[i].tag_sets@.contains(w)
                        ==> w.contains(t)
            },
    )
}

/// The tags that are active in every world of some permutations; none if there
/// is no world.
pub fn always_active_tags(perms: &Vec<BuildPermutation>) -> (r: OrderedSet<String>)
    ensures
        r@ == always_active(perms@),
{
    let mut acc: OrderedSet<String> = OrderedSet::new();
    let mut seen: bool = false;
    let n: usize = perms.len();
    let mut i: usize = 0;
    while i < n
        invariant
            i <= n,
            n == perms@.len(),
            seen <==> exists|a: int, w: Seq<Seq<char>>|
                0 <= a < i && #[trigger] perms@[a].tag_sets@.contains(w),
            seen ==> forall|t: Seq<char>| #[trigger]
                acc@.contains(t) <==> forall|a: int, w: Seq<Seq<char>>|
                    0 <= a < i && #[trigger] perms@[a].tag_sets@.contains(w) ==> w.contains(t),
            !seen ==> acc@ == Set::<Seq<char>>::empty(),
        decreases n - i,
    {
        let sets = &perms[i].tag_sets;
        let m: usize = sets.len();
        let mut j: usize = 0;
        let ghost seen_before = seen;
        let ghost acc_before = acc@;
        while j < m
            invariant
                j <= m,
                i < n,
                n == perms@.len(),
                *sets == perms@[i as int].tag_sets,
                m == sets.listing().len(),
                sets@ == sets.listing().to_set(),
                seen_before <==> exists|a: int, w: Seq<Seq<char>>|
                    0 <= a < i && #[trigger] perms@[a].tag_sets@.contains(w),
                seen_before ==> forall|t: Seq<char>| #[trigger]
                    acc_before.contains(t) <==> forall|a: int, w: Seq<Seq<char>>|
                        0 <= a < i && #[trigger] perms@[a].tag_sets@.contains(w) ==> w.contains(t),
                seen <==> seen_before || j > 0,
                seen ==> forall|t: Seq<char>| #[trigger]
                    acc@.contains(t) <==> (seen_before ==> acc_before.contains(t)) && forall|b: int|
                        0 <= b < j ==> (#[trigger] sets.listing()[b]).contains(t),
                !seen ==> acc@ == Set::<Seq<char>>::empty(),
            decreases m - j,
        {
            let world = sets.at(j);
            let _k: usize = world.tags.len();
            let ghost before = acc@;
            if seen {
                acc = acc.intersection(&world.tags);
            } else {
                acc = world.tags.duplicate();
                seen = true;
            }
            proof {
                assert forall|t: Seq<char>| #[trigger] acc@.contains(t) <==> (seen_before
                    ==> acc_before.contains(t)) && forall|b: int|
                    0 <= b < j + 1 ==> (#[trigger] sets.listing()[b]).contains(t) by {
                    assert(world.tags@.contains(t) == sets.listing()[j as int].contains(t));
                    if before.contains(t) && acc@.contains(t) {
                        assert forall|b: int| 0 <= b < j + 1 implies (
                        #[trigger] sets.listing()[b]).contains(t) by {}
                    }
                }
            }
            j = j + 1;
        }
        proof {
            let w0 = perms@[i as int].tag_sets@;
            if m > 0 {
                assert(sets.listing().contains(sets.listing()[0]));
                assert(perms@[i as int].tag_sets@.contains(sets.listing()[0]));
            }
            assert(seen <==> exists|a: int, w: Seq<Seq<char>>|
                0 <= a < i + 1 && #[trigger] perms@[a].tag_sets@.contains(w)) by {
                if seen_before {
                    let (a, w) = choose|a: int, w: Seq<Seq<char>>|
                        0 <= a < i && #[trigger] perms@[a].tag_sets@.contains(w);
                    assert(0 <= a < i + 1 && perms@[a].tag_sets@.contains(w));
                }
                if exists|a: int, w: Seq<Seq<char>>|
                    0 <= a < i + 1 && #[trigger] perms@[a].tag_sets@.contains(w) {
                    let (a, w) = choose|a: int, w: Seq<Seq<char>>|
                        0 <= a < i + 1 && #[trigger] perms@[a].tag_sets@.contains(w);
                    if a == i {
                        assert(sets.listing().contains(w));
                    } else {
                        assert(0 <= a < i && perms@[a].tag_sets@.contains(w));
                    }
                }
            }
            if seen {
                assert forall|t: Seq<char>| #[trigger] acc@.contains(t) <==> forall|
                    a: int,
                    w: Seq<Seq<char>>,
                |
                    0 <= a < i + 1 && #[trigger] perms@[a].tag_sets@.contains(w) ==> w.contains(
                        t,
                    ) by {
                    if acc@.contains(t) {
                        assert forall|a: int, w: Seq<Seq<char>>|
                            0 <= a < i + 1 && #[trigger] perms@[a].tag_sets@.contains(
                                w,
                            ) implies w.contains(t) by {
                            if a == i {
                                assert(sets.listing().contains(w));
                                let b = choose|b: int|
                                    0 <= b < sets.listing().len() && sets.listing()[b] == w;
                                assert(sets.listing()[b].contains(t));
                            } else {
                                assert(seen_before);
                                assert(acc_before.contains(t));
                            }
                        }
                    }
                    if forall|a: int, w: Seq<Seq<char>>|
                        0 <= a < i + 1 && #[trigger] perms@[a].tag_sets@.contains(w) ==> w.contains(
                            t,
                        ) {
                        assert forall|b: int| 0 <= b < m implies (
                        #[trigger] sets.listing()[b]).contains(t) by {
                            assert(sets.listing().contains(sets.listing()[b]));
                            assert(perms@[i as int].tag_sets@.contains(sets.listing()[b]));
                        }
                        if seen_before {
                            assert(acc_before.contains(t));
                        }
                    }
                }
            }
        }
        i = i + 1;
    }
    proof {
        assert(acc@ =~= always_active(perms@));
    }
    acc
}

/// Whether a condition holds depends only on the tags that it mentions.
pub proof fn law_only_mentioned_tags_matter(
    a: Set<Seq<char>>,
    b: Set<Seq<char>>,
    expr: BuildConstraintExprNode,
)
    requires
        forall|t: Seq<char>| #[trigger] tags_in(expr).contains(t) ==> a.contains(t) == b.contains(t),
    ensures
        satisfies(a, expr) == satisfies(b, expr),
    decreases expr,
{
    match expr {
        BuildConstraintExprNode::Tag(name) => {
            if go_version(name@) is None && !is_ignore_tag(name@) {
                assert(tags_in(expr).contains(name@));
            }
        },
        BuildConstraintExprNode::Not(inner) => {
            assert(tags_in(expr) == tags_in(*inner));
            assert forall|t: Seq<char>| #[trigger] tags_in(*inner).contains(t) implies a.contains(t)
                == b.contains(t) by {
                assert(tags_in(expr).contains(t));
            }
            law_only_mentioned_tags_matter(a, b, *inner);
        },
        BuildConstraintExprNode::And(clauses) => {
            assert forall|i: int| 0 <= i < clauses@.len() implies satisfies(
                a,
                #[trigger] clauses@[i],
            ) == satisfies(b, clauses@[i]) by {
                lemma_clause_tags(clauses@, i);
                assert(tags_in(expr) == tags_in_all(clauses@));
                assert forall|t: Seq<char>| #[trigger] tags_in(clauses@[i]).contains(
                    t,
                ) implies a.contains(t) == b.contains(t) by {
                    assert(tags_in(expr).contains(t));
                }
                law_only_mentioned_tags_matter(a, b, clauses@[i]);
            }
            lemma_and(a, b, expr);
        },
        BuildConstraintExprNode::Or(clauses) => {
            assert forall|i: int| 0 <= i < clauses@.len() implies satisfies(
                a,
                #[trigger] clauses@[i],
            ) == satisfies(b, clauses@[i]) by {
                lemma_clause_tags(clauses@, i);
                assert(tags_in(expr) == tags_in_all(clauses@));
                assert forall|t: Seq<char>| #[trigger] tags_in(clauses@[i]).contains(
                    t,
                ) implies a.contains(t) == b.contains(t) by {
                    assert(tags_in(expr).contains(t));
                }
                law_only_mentioned_tags_matter(a, b, clauses@[i]);
            }
            lemma_or(a, b, expr);
        },
    }
}

proof fn lemma_clause_tags(clauses: Seq<BuildConstraintExprNode>, i: int)
    requires
        0 <= i < clauses.len(),
    ensures
        tags_in(clauses[i]).subset_of(tags_in_all(clauses)),
{
}

proof fn lemma_and(a: Set<Seq<char>>, b: Set<Seq<char>>, expr: BuildConstraintExprNode)
    requires
        expr is And,
        forall|i: int|
            0 <= i < expr->And_0@.len() ==> satisfies(a, #[trigger] expr->And_0@[i]) == satisfies(
                b,
                expr->And_0@[i],
            ),
    ensures
        satisfies(a, expr) == satisfies(b, expr),
{
    let clauses = expr->And_0@;
    if satisfies(a, expr) {
        assert(forall|i: int| 0 <= i < clauses.len() ==> satisfies(b, #[trigger] clauses[i]));
    }
    if satisfies(b, expr) {
        assert(forall|i: int| 0 <= i < clauses.len() ==> satisfies(a, #[trigger] clauses[i]));
    }
}

proof fn lemma_or(a: Set<Seq<char>>, b: Set<Seq<char>>, expr: BuildConstraintExprNode)
    requires
        expr is Or,
        forall|i: int|
            0 <= i < expr->Or_0@.len() ==> satisfies(a, #[trigger] expr->Or_0@[i]) == satisfies(
                b,
                expr->Or_0@[i],
            ),
    ensures
        satisfies(a, expr) == satisfies(b, expr),
{
    let clauses = expr->Or_0@;
    if satisfies(a, expr) {
        let i = choose|i: int| 0 <= i < clauses.len() && satisfies(a, #[trigger] clauses[i]);
        assert(satisfies(b, clauses[i]));
    }
    if satisfies(b, expr) {
        let i = choose|i: int| 0 <= i < clauses.len() && satisfies(b, #[trigger] clauses[i]);
        assert(satisfies(a, clauses[i]));
    }
}

/// A file whose constraint demands a conventional ignore tag is compiled in no
/// world.
pub proof fn law_ignored_never_satisfied(tags: Set<Seq<char>>, expr: BuildConstraintExprNode)
    requires
        demands_ignore(expr),
    ensures
        !satisfies(tags, expr),
    decreases expr,
{
    match expr {
        BuildConstraintExprNode::And(clauses) => {
            let i = choose|i: int| 0 <= i < clauses@.len() && demands_ignore(#[trigger] clauses@[i]);
            law_ignored_never_satisfied(tags, clauses@[i]);
            if satisfies(tags, expr) {
                assert(expr->And_0 == clauses);
                assert(satisfies(tags, clauses@[i]));
            }
        },
        BuildConstraintExprNode::Or(clauses) => {
            assert(expr->Or_0 == clauses);
            assert forall|i: int| 0 <= i < clauses@.len() implies !satisfies(
                tags,
                #[trigger] clauses@[i],
            ) by {
                assert(demands_ignore(clauses@[i]));
                law_ignored_never_satisfied(tags, clauses@[i]);
            }
        },
        _ => {},
    }
}

/// No world belongs to two permutations.
pub proof fn law_permutations_are_disjoint(
    parsed: Map<Seq<char>, SourceFileNode>,
    perms: Seq<BuildPermutation>,
    i: int,
    j: int,
    world: Seq<Seq<char>>,
)
    requires
        are_permutations(parsed, perms),
        0 <= i < perms.len(),
        0 <= j < perms.len(),
        perms[i].tag_sets@.contains(world),
        perms[j].tag_sets@.contains(world),
    ensures
        i == j,
{
    assert(perms[i].tag_sets@ == worlds_admitting(parsed, perms[i].admitted@));
    assert(perms[j].tag_sets@ == worlds_admitting(parsed, perms[j].admitted@));
}

} // verus!
