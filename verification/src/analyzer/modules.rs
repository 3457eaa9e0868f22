//! Paths of modules and packages.

use vstd::prelude::*;

use crate::build_constraints::views;
use crate::files::without_trailing;
use crate::ordered::same_text;
use crate::text::{cut_at_last, cut_at_text, pieces, prefix_removed, slice_views, split,
    split_at_last, split_at_text, strip_prefix, trim, trimmed};

verus! {

/// Whether a piece of a path between slashes may be one of a module path.
pub open spec fn is_path_element(s: Seq<char>) -> bool {
    s.len() > 0 && s[0] != '.' && s.last() != '.'
}

/// Whether a text may be the path of a module.
pub open spec fn is_module_path(s: Seq<char>) -> bool {
    &&& s.len() > 0
    &&& forall|i: int| 0 <= i < s.len() ==> #[trigger] s[i] <= '\u{7f}'
    &&& forall|i: int|
        0 <= i < pieces(s, '/').len() ==> is_path_element(#[trigger] pieces(s, '/')[i])
}

/// Whether a text may be the path of a module.
pub fn valid_module_path(candidate: &str) -> (r: bool)
    ensures
        r == is_module_path(candidate@),
{
    let n: usize = candidate.unicode_len();
    if n == 0 {
        return false;
    }
    let mut i: usize = 0;
    while i < n
        invariant
            i <= n,
            n == candidate@.len(),
            forall|k: int| 0 <= k < i ==> #[trigger] candidate@[k] <= '\u{7f}',
        decreases n - i,
    {
        if candidate.get_char(i) > '\u{7f}' {
            return false;
        }
        i = i + 1;
    }
    let elements = split(candidate, '/');
    let ghost ps = pieces(candidate@, '/');
    let m: usize = elements.len();
    let mut j: usize = 0;
    while j < m
        invariant
            j <= m,
            m == elements@.len(),
            ps == slice_views(elements@),
            ps == pieces(candidate@, '/'),
            forall|k: int| 0 <= k < j ==> is_path_element(#[trigger] ps[k]),
        decreases m - j,
    {
        let element = elements[j];
        let len: usize = element.unicode_len();
        proof {
            assert(ps[j as int] == element@);
        }
        if len == 0 || element.get_char(0) == '.' || element.get_char(len - 1) == '.' {
            return false;
        }
        j = j + 1;
    }
    true
}

/// A line of a `go.mod` file without its comment and the white space around.
pub open spec fn cleaned(line: Seq<char>) -> Seq<char> {
    trimmed(
        match cut_at_text(line, "//"@) {
            Some((before, _)) => before,
            None => line,
        },
    )
}

/// What a line of a `go.mod` file leads to: whether a block of module
/// directives is open behind it, and what it gives as the path of the module.
/// The path is given on a line with `module`, or on a line of its own in a
/// block of module directives.
pub open spec fn read_line(in_block: bool, line: Seq<char>) -> (bool, Option<Seq<char>>) {
    let text = cleaned(line);
    if in_block {
        if text.len() == 0 {
            (true, None)
        } else if text == ")"@ {
            (false, None)
        } else {
            (true, Some(text))
        }
    } else {
        match prefix_removed(text, "module "@) {
            Some(rest) => if trimmed(rest) == "("@ {
                (true, None)
            } else {
                (false, Some(trimmed(rest)))
            },
            None => (false, None),
        }
    }
}

/// Whether a block is open behind the first lines, and the first valid path
/// that they give.
pub open spec fn read_lines(lines: Seq<Seq<char>>, n: int) -> (bool, Option<Seq<char>>)
    decreases n,
{
    if n <= 0 {
        (false, None)
    } else {
        let (in_block, found) = read_lines(lines, n - 1);
        if found is Some {
            (in_block, found)
        } else {
            let (now, candidate) = read_line(in_block, lines[n - 1]);
            match candidate {
                Some(c) => if is_module_path(c) {
                    (now, Some(c))
                } else {
                    (now, None)
                },
                None => (now, None),
            }
        }
    }
}

proof fn lemma_found_stays(lines: Seq<Seq<char>>, from: int, n: int)
    requires
        from <= n,
        read_lines(lines, from).1 is Some,
    ensures
        read_lines(lines, n).1 == read_lines(lines, from).1,
    decreases n,
{
    if from < n {
        lemma_found_stays(lines, from, n - 1);
    }
}

/// The path of the module that the lines of a `go.mod` file declare.
pub fn module_path_in(lines: &Vec<String>) -> (r: Option<String>)
    ensures
        r is Some <==> read_lines(views(lines@), lines@.len() as int).1 is Some,
        r matches Some(p) ==> read_lines(views(lines@), lines@.len() as int).1 == Some(p@),
{
    let ghost all = views(lines@);
    let n: usize = lines.len();
    let mut in_block = false;
    let mut i: usize = 0;
    while i < n
        invariant
            i <= n,
            n == lines@.len(),
            all == views(lines@),
            read_lines(all, i as int) == (in_block, None::<Seq<char>>),
        decreases n - i,
    {
        let line = lines[i].as_str();
        proof {
            assert(all[i as int] == line@);
        }
        let text = match split_at_text(line, "//") {
            Some((before, _)) => trim(before),
            None => trim(line),
        };
        let candidate = if in_block {
            if text.is_empty() {
                None
            } else if same_text(text, ")") {
                in_block = false;
                None
            } else {
                Some(text)
            }
        } else {
            match strip_prefix(text, "module ") {
                Some(rest) => {
                    let rest = trim(rest);
                    if same_text(rest, "(") {
                        in_block = true;
                        None
                    } else {
                        Some(rest)
                    }
                },
                None => None,
            }
        };
        if let Some(c) = candidate {
            if valid_module_path(c) {
                proof {
                    assert(read_lines(all, i + 1).1 == Some(c@));
                    lemma_found_stays(all, i + 1, n as int);
                }
                return Some(c.to_owned());
            }
        }
        i = i + 1;
    }
    None
}

/// The path of the package to which a file belongs: that of the module,
/// followed by the directory of the file.
pub open spec fn package_path(module_base: Seq<char>, virtual_path: Seq<char>) -> Seq<char> {
    module_base + match cut_at_last(without_trailing(virtual_path), '/') {
        Some((dir, _)) => without_trailing(dir),
        None => Seq::<char>::empty(),
    }
}

fn strip_trailing<'a>(path: &'a str) -> (r: &'a str)
    ensures
        r@ == without_trailing(path@),
{
    let n: usize = path.unicode_len();
    let mut m: usize = n;
    proof {
        assert(path@.take(n as int) =~= path@);
    }
    while m > 0 && (path.get_char(m - 1) == '/' || m > 1 && path.get_char(m - 1) == '.'
        && path.get_char(m - 2) == '/')
        invariant
            m <= n,
            n == path@.len(),
            without_trailing(path@) == without_trailing(path@.take(m as int)),
        decreases m,
    {
        proof {
            assert(path@.take(m as int).drop_last() =~= path@.take(m - 1));
        }
        m = m - 1;
    }
    let r = path.substring_char(0, m);
    proof {
        assert(r@ =~= path@.take(m as int));
    }
    r
}

/// The path of the package to which a file belongs.
pub fn compute_package_path(module_base: &str, virtual_file_path: &str) -> (r: String)
    ensures
        r@ == package_path(module_base@, virtual_file_path@),
{
    let mut path = module_base.to_owned();
    match split_at_last(strip_trailing(virtual_file_path), '/') {
        Some((dir, _)) => {
            path.append(strip_trailing(dir));
        },
        None => {
            proof {
                assert(path@ + Seq::<char>::empty() =~= path@);
            }
        },
    }
    path
}

/// Files in the same directory belong to the same package.
pub proof fn law_packages_are_directories(
    module_base: Seq<char>,
    a: Seq<char>,
    b: Seq<char>,
)
    requires
        cut_at_last(without_trailing(a), '/') is Some,
        cut_at_last(without_trailing(b), '/') is Some,
        (cut_at_last(without_trailing(a), '/')->0).0 == (cut_at_last(
            without_trailing(b),
            '/',
        )->0).0,
    ensures
        package_path(module_base, a) == package_path(module_base, b),
{
}

} // verus!
