//! Source files.

use vstd::prelude::*;

use crate::text::{cut_at_last, split_at_last};

verus! {

/// A path without the separators, and the components `.`, at its end.
pub open spec fn without_trailing(path: Seq<char>) -> Seq<char>
    decreases path.len(),
{
    if path.len() > 0 && path.last() == '/' {
        without_trailing(path.drop_last())
    } else if path.len() > 1 && path.last() == '.' && path[path.len() - 2] == '/' {
        without_trailing(path.drop_last())
    } else {
        path
    }
}

/// The last component of a path, if it names a file.
pub open spec fn file_name(path: Seq<char>) -> Option<Seq<char>> {
    let p = without_trailing(path);
    let name = match cut_at_last(p, '/') {
        Some((_, name)) => name,
        None => p,
    };
    if name.len() == 0 || name == "."@ || name == ".."@ {
        None
    } else {
        Some(name)
    }
}

/// The last component of a path, if it names a file.
pub fn name_of_file<'a>(path: &'a str) -> (r: Option<&'a str>)
    ensures
        r is Some <==> file_name(path@) is Some,
        r matches Some(name) ==> file_name(path@) == Some(name@),
{
    let n: usize = path.unicode_len();
    let mut m: usize = n;
    proof {
        assert(path@.take(n as int) =~= path@);
    }
    while m > 0 && (path.get_char(m - 1) == '/' || (m > 1 && path.get_char(m - 1) == '.'
        && path.get_char(m - 2) == '/'))
        invariant
            m <= n,
            n == path@.len(),
            without_trailing(path@) == without_trailing(path@.take(m as int)),
        decreases m,
    {
        proof {
            assert(path@.take(m as int).drop_last() =~= path@.take(m - 1));
        }
        m = m - 1;
    }
    let p = path.substring_char(0, m);
    proof {
        assert(p@ =~= path@.take(m as int));
        assert(without_trailing(p@) == p@);
    }
    let name = match split_at_last(p, '/') {
        Some((_, name)) => name,
        None => p,
    };
    if name.is_empty() || crate::ordered::same_text(name, ".") || crate::ordered::same_text(
        name,
        "..",
    ) {
        None
    } else {
        Some(name)
    }
}

/// Whether a path may be that of a Go source file: it is rooted, and the part
/// of its file name after the last dot, which is not the first character, is
/// `go`.
pub open spec fn is_virtual_path(path: Seq<char>) -> bool {
    &&& path.len() > 0
    &&& path[0] == '/'
    &&& file_name(path) matches Some(name) && cut_at_last(name, '.') matches Some((stem, ext))
        && stem.len() > 0 && ext == "go"@
}

/// Whether a path may be that of a Go source file.
pub fn valid_virtual_path(path: &str) -> (r: bool)
    ensures
        r == is_virtual_path(path@),
{
    if path.is_empty() || path.get_char(0) != '/' {
        return false;
    }
    match name_of_file(path) {
        Some(name) => match split_at_last(name, '.') {
            Some((stem, ext)) => !stem.is_empty() && crate::ordered::same_text(ext, "go"),
            None => false,
        },
        None => false,
    }
}

/// A file with Go source code.
#[derive(Debug)]
pub struct SourceFile {
    virtual_path: String,
    contents: String,
}

impl SourceFile {
    /// The path of the file, rooted in the base of the module.
    pub closed spec fn path(&self) -> Seq<char> {
        self.virtual_path@
    }

    /// The source code.
    pub closed spec fn code(&self) -> Seq<char> {
        self.contents@
    }

    #[verifier::type_invariant]
    spec fn inv(&self) -> bool {
        is_virtual_path(self.virtual_path@)
    }

    /// A file with the given path, which must be rooted and name a Go file, and
    /// the given contents.
    pub fn new(virtual_path: String, contents: String) -> (r: Self)
        requires
            is_virtual_path(virtual_path@),
        ensures
            r.path() == virtual_path@,
            r.code() == contents@,
    {
        SourceFile { virtual_path, contents }
    }

    /// The path of the file.
    pub fn virtual_path(&self) -> (r: &str)
        ensures
            r@ == self.path(),
            is_virtual_path(r@),
    {
        proof {
            use_type_invariant(self);
        }
        self.virtual_path.as_str()
    }

    /// The contents of the file.
    pub fn contents(&self) -> (r: &str)
        ensures
            r@ == self.code(),
    {
        self.contents.as_str()
    }
}

} // verus!
