//! What a blanket directive applies to.

use vstd::prelude::*;

use crate::labels::tags::text_of;
use crate::ordered::{same_text, OrderedSet};
use crate::text::{all_digits, cut_at_first, cut_at_last, cut_at_text, number, pieces, slice_views,
    split, split_at_first, split_at_last, split_at_text, strip_suffix, suffix_removed};

verus! {

/// A value that is known while a program is analyzed, as it is written.
#[derive(Debug)]
pub struct SimpleConstValue {
    pub text: String,
}

/// A condition on an argument of a call: it must not be known to be different
/// from a value.
#[derive(Debug)]
pub struct BlanketSourceArgPredicate {
    /// The position of the argument.
    pub arg_index: usize,
    /// What the argument is held against.
    pub value: String,
    /// Whether it is enough that the argument contains the value.
    pub fuzzy: bool,
}

/// Whether a text occurs in another.
pub open spec fn occurs_in(part: Seq<char>, whole: Seq<char>) -> bool {
    exists|i: int|
        0 <= i && i + part.len() <= whole.len() && #[trigger] whole.subrange(
            i,
            i + part.len(),
        ) == part
}

/// Whether a text occurs in another.
pub fn contains_text(whole: &str, part: &str) -> (r: bool)
    ensures
        r == occurs_in(part@, whole@),
{
    let n: usize = whole.unicode_len();
    let m: usize = part.unicode_len();
    if n < m {
        return false;
    }
    let last: usize = n - m;
    let mut i: usize = 0;
    while i < last
        invariant
            n == whole@.len(),
            m == part@.len(),
            last == n - m,
            i <= last,
            forall|k: int| 0 <= k < i ==> #[trigger] whole@.subrange(k, k + m) != part@,
        decreases last - i,
    {
        if same_text(whole.substring_char(i, i + m), part) {
            return true;
        }
        i = i + 1;
    }
    let at_end = same_text(whole.substring_char(last, n), part);
    proof {
        let k = last as int;
        assert(whole@.subrange(k, k + part@.len()) == whole@.subrange(last as int, n as int));
        if occurs_in(part@, whole@) {
            let i = choose|i: int|
                0 <= i && i + part@.len() <= whole@.len() && #[trigger] whole@.subrange(
                    i,
                    i + part@.len(),
                ) == part@;
            assert(i == k);
        }
    }
    at_end
}

/// Whether a condition holds, given what is known of the arguments: the position
/// of an argument, what it is held against, and whether it is enough that it
/// contains that.
pub open spec fn predicate_holds(
    p: (usize, Seq<char>, bool),
    known: Seq<Option<Seq<char>>>,
) -> bool {
    !(p.0 < known.len() && (known[p.0 as int] matches Some(text) && !(if p.2 {
        occurs_in(p.1, text)
    } else {
        text == p.1
    })))
}

impl BlanketSourceArgPredicate {
    /// A copy.
    pub fn duplicate(&self) -> (r: Self)
        ensures
            r.arg_index == self.arg_index,
            r.value@ == self.value@,
            r.fuzzy == self.fuzzy,
    {
        BlanketSourceArgPredicate {
            arg_index: self.arg_index,
            value: self.value.as_str().to_owned(),
            fuzzy: self.fuzzy,
        }
    }

    /// Whether two conditions are the same.
    pub fn same_as(&self, other: &Self) -> (r: bool)
        ensures
            r == (self.arg_index == other.arg_index && self.value@ == other.value@ && self.fuzzy
                == other.fuzzy),
    {
        self.arg_index == other.arg_index && self.fuzzy == other.fuzzy && same_text(
            self.value.as_str(),
            other.value.as_str(),
        )
    }

    /// Whether the condition holds, given what is known of the arguments.
    pub fn may_hold(&self, arg_consts: &Vec<Option<SimpleConstValue>>) -> (r: bool)
        ensures
            r == predicate_holds(
                (self.arg_index, self.value@, self.fuzzy),
                known_texts(arg_consts@),
            ),
    {
        if self.arg_index >= arg_consts.len() {
            return true;
        }
        proof {
            assert(known_texts(arg_consts@)[self.arg_index as int] == match arg_consts@[self.arg_index as int] {
                Some(c) => Some(c.text@),
                None => None,
            });
        }
        match &arg_consts[self.arg_index] {
            Some(c) => if self.fuzzy {
                contains_text(c.text.as_str(), self.value.as_str())
            } else {
                same_text(c.text.as_str(), self.value.as_str())
            },
            None => true,
        }
    }
}

/// What is known of some values.
pub open spec fn known_texts(consts: Seq<Option<SimpleConstValue>>) -> Seq<Option<Seq<char>>> {
    consts.map_values(
        |c: Option<SimpleConstValue>|
            match c {
                Some(v) => Some(v.text@),
                None => None,
            },
    )
}

/// A symbol, or a member of a type, of a package, along with what narrows a
/// directive for it down.
#[derive(Debug)]
pub struct BlanketDirectiveTarget {
    /// The full import path of the package.
    pub package_path: String,
    /// The type to which the member belongs, if it is no symbol of its own.
    pub owner_type: Option<String>,
    /// The name of the symbol or member.
    pub member_name: String,
    /// The positions of the results that are meant; all if empty.
    pub result_selector: OrderedSet<usize>,
    /// The position of the argument that is meant; all if absent.
    pub arg_index: Option<usize>,
    /// A condition on an argument.
    pub arg_predicate: Option<BlanketSourceArgPredicate>,
}

impl BlanketDirectiveTarget {
    /// A target for every access, or for one argument of every call.
    pub fn new(
        package_path: String,
        owner_type: Option<String>,
        member_name: String,
        arg_index: Option<usize>,
    ) -> (r: Self)
        ensures
            r.package_path@ == package_path@,
            r.owner_type == owner_type,
            r.member_name@ == member_name@,
            r.result_selector@ == Set::<usize>::empty(),
            r.arg_index == arg_index,
            r.arg_predicate is None,
    {
        BlanketDirectiveTarget {
            package_path,
            owner_type,
            member_name,
            result_selector: OrderedSet::new(),
            arg_index,
            arg_predicate: None,
        }
    }
}

/// The position that a text stands for: one or more decimal digits.
pub open spec fn position(s: Seq<char>) -> Option<usize> {
    if s.len() > 0 && all_digits(s) && number(s) <= usize::MAX {
        Some(number(s) as usize)
    } else {
        None
    }
}

proof fn lemma_number_grows(s: Seq<char>, n: int)
    requires
        all_digits(s),
        0 <= n <= s.len(),
    ensures
        number(s.take(n)) <= number(s),
    decreases s.len(),
{
    if n == s.len() {
        assert(s.take(n) =~= s);
    } else {
        let front = s.drop_last();
        assert forall|i: int| 0 <= i < front.len() implies '0' <= #[trigger] front[i] <= '9' by {
            assert(front[i] == s[i]);
        }
        lemma_number_grows(front, n);
        assert(front.take(n) =~= s.take(n));
        assert('0' <= s[s.len() - 1]);
    }
}

/// The position that a text stands for.
pub fn parse_position(s: &str) -> (r: Option<usize>)
    ensures
        r == position(s@),
{
    let len: usize = s.unicode_len();
    if len == 0 {
        return None;
    }
    let mut i: usize = 0;
    let mut n: usize = 0;
    proof {
        assert(s@.take(0) =~= Seq::<char>::empty());
    }
    while i < len
        invariant
            i <= len,
            len == s@.len(),
            all_digits(s@.take(i as int)),
            n == number(s@.take(i as int)),
        decreases len - i,
    {
        let c = s.get_char(i);
        if !('0' <= c && c <= '9') {
            return None;
        }
        let ghost upto = s@.take(i + 1);
        proof {
            assert(upto.drop_last() =~= s@.take(i as int));
            assert(upto.last() == c);
            assert forall|k: int| 0 <= k < upto.len() implies '0' <= #[trigger] upto[k] <= '9' by {
                if k < i {
                    assert(upto[k] == s@.take(i as int)[k]);
                }
            }
        }
        let d: usize = (c as u32 - '0' as u32) as usize;
        if n > (usize::MAX - d) / 10 {
            proof {
                assert(number(upto) > usize::MAX);
                if all_digits(s@) {
                    lemma_number_grows(s@, i + 1);
                }
            }
            return None;
        }
        n = 10 * n + d;
        i = i + 1;
    }
    proof {
        assert(s@.take(len as int) =~= s@);
    }
    Some(n)
}

/// What a [`BlanketDirectiveTarget`] stands for.
#[verifier::ext_equal]
pub struct TargetModel {
    pub package_path: Seq<char>,
    pub owner_type: Option<Seq<char>>,
    pub member_name: Seq<char>,
    pub results: Set<usize>,
    pub arg_index: Option<usize>,
    /// The position of an argument, what it is held against, and whether it is
    /// enough that it contains that.
    pub predicate: Option<(usize, Seq<char>, bool)>,
}

/// What an optional condition stands for.
pub open spec fn predicate_of(p: Option<BlanketSourceArgPredicate>) -> Option<
    (usize, Seq<char>, bool),
> {
    match p {
        Some(x) => Some((x.arg_index, x.value@, x.fuzzy)),
        None => None,
    }
}

impl View for BlanketDirectiveTarget {
    type V = TargetModel;

    open spec fn view(&self) -> TargetModel {
        TargetModel {
            package_path: self.package_path@,
            owner_type: text_of(self.owner_type),
            member_name: self.member_name@,
            results: self.result_selector@,
            arg_index: self.arg_index,
            predicate: predicate_of(self.arg_predicate),
        }
    }
}

/// The positions up to a count in a list, if all of them are some.
pub open spec fn positions_in(texts: Seq<Seq<char>>, n: int) -> Option<Set<usize>>
    decreases n,
{
    if n <= 0 {
        Some(Set::<usize>::empty())
    } else {
        match (positions_in(texts, n - 1), position(texts[n - 1])) {
            (Some(before), Some(p)) => Some(before.insert(p)),
            _ => None,
        }
    }
}

/// A package path, an optional type and a name, as in `net/http.Request.Body`.
/// The package path ends with the first full stop behind the last slash.
pub open spec fn parsed_name(s: Seq<char>) -> Option<(Seq<char>, Option<Seq<char>>, Seq<char>)> {
    let (dir, tail) = match cut_at_last(s, '/') {
        Some((front, back)) => (front + "/"@, back),
        None => (Seq::<char>::empty(), s),
    };
    let ps = pieces(tail, '.');
    if ps.len() == 2 && ps[0].len() > 0 && ps[1].len() > 0 {
        Some((dir + ps[0], None, ps[1]))
    } else if ps.len() == 3 && ps[0].len() > 0 && ps[1].len() > 0 && ps[2].len() > 0 {
        Some((dir + ps[0], Some(ps[1]), ps[2]))
    } else {
        None
    }
}

/// What follows a number sign: a position, alone, or with a value that the
/// argument there is held against, behind `=`, or behind `~=` if it is enough
/// that the argument contains it.
pub open spec fn parsed_argument(s: Seq<char>) -> Option<
    (Option<usize>, Option<(usize, Seq<char>, bool)>),
> {
    match cut_at_first(s, '=') {
        Some((left, value)) => {
            let fuzzy = suffix_removed(left, "~"@) is Some;
            let at = if fuzzy {
                suffix_removed(left, "~"@)->0
            } else {
                left
            };
            match position(at) {
                Some(p) => Some((None, Some((p, value, fuzzy)))),
                None => None,
            }
        },
        None => match position(s) {
            Some(p) => Some((Some(p), None)),
            None => None,
        },
    }
}

/// What a text stands for as a target: a name; then, behind `->`, positions of
/// results; then, behind `#`, the position of an argument or a condition on it.
pub open spec fn parsed_target(s: Seq<char>) -> Option<TargetModel> {
    let (left, argument) = match cut_at_first(s, '#') {
        Some((front, back)) => (front, parsed_argument(back)),
        None => (s, Some((None, None))),
    };
    let (name, results) = match cut_at_text(left, "->"@) {
        Some((front, back)) => (
            front,
            positions_in(pieces(back, ','), pieces(back, ',').len() as int),
        ),
        None => (left, Some(Set::<usize>::empty())),
    };
    match (parsed_name(name), results, argument) {
        (Some(n), Some(rs), Some(a)) => Some(
            TargetModel {
                package_path: n.0,
                owner_type: n.1,
                member_name: n.2,
                results: rs,
                arg_index: a.0,
                predicate: a.1,
            },
        ),
        _ => None,
    }
}

fn parse_name(s: &str) -> (r: Option<(String, Option<String>, String)>)
    ensures
        r is Some <==> parsed_name(s@) is Some,
        r matches Some(n) ==> parsed_name(s@) == Some((n.0@, text_of(n.1), n.2@)),
{
    let (mut package_path, tail) = match split_at_last(s, '/') {
        Some((front, back)) => {
            let mut dir = front.to_owned();
            dir.append("/");
            (dir, back)
        },
        None => {
            proof {
                reveal_strlit("");
                assert(""@ =~= Seq::<char>::empty());
            }
            ("".to_owned(), s)
        },
    };
    let ps = split(tail, '.');
    let n: usize = ps.len();
    proof {
        assert(slice_views(ps@).len() == n);
    }
    if n == 2 && ps[0].unicode_len() > 0 && ps[1].unicode_len() > 0 {
        package_path.append(ps[0]);
        Some((package_path, None, ps[1].to_owned()))
    } else if n == 3 && ps[0].unicode_len() > 0 && ps[1].unicode_len() > 0 && ps[2].unicode_len()
        > 0 {
        package_path.append(ps[0]);
        Some((package_path, Some(ps[1].to_owned()), ps[2].to_owned()))
    } else {
        None
    }
}

fn parse_argument(s: &str) -> (r: Option<(Option<usize>, Option<BlanketSourceArgPredicate>)>)
    ensures
        r is Some <==> parsed_argument(s@) is Some,
        r matches Some(a) ==> parsed_argument(s@) == Some((a.0, predicate_of(a.1))),
{
    match split_at_first(s, '=') {
        Some((left, value)) => {
            let (at, fuzzy) = match strip_suffix(left, "~") {
                Some(t) => (t, true),
                None => (left, false),
            };
            match parse_position(at) {
                Some(p) => Some(
                    (
                        None,
                        Some(
                            BlanketSourceArgPredicate {
                                arg_index: p,
                                value: value.to_owned(),
                                fuzzy,
                            },
                        ),
                    ),
                ),
                None => None,
            }
        },
        None => match parse_position(s) {
            Some(p) => Some((Some(p), None)),
            None => None,
        },
    }
}

fn parse_positions(s: &str) -> (r: Option<OrderedSet<usize>>)
    ensures
        r is Some <==> positions_in(pieces(s@, ','), pieces(s@, ',').len() as int) is Some,
        r matches Some(set) ==> positions_in(pieces(s@, ','), pieces(s@, ',').len() as int) == Some(
            set@,
        ),
{
    let texts = split(s, ',');
    let ghost ps = pieces(s@, ',');
    let n: usize = texts.len();
    let mut set: OrderedSet<usize> = OrderedSet::new();
    let mut i: usize = 0;
    while i < n
        invariant
            i <= n,
            n == texts@.len(),
            ps == slice_views(texts@),
            ps == pieces(s@, ','),
            positions_in(ps, i as int) == Some(set@),
        decreases n - i,
    {
        match parse_position(texts[i]) {
            Some(p) => {
                set.insert(p);
            },
            None => {
                proof {
                    lemma_positions_fail(ps, i + 1, n as int);
                }
                return None;
            },
        }
        i = i + 1;
    }
    Some(set)
}

proof fn lemma_positions_fail(texts: Seq<Seq<char>>, from: int, n: int)
    requires
        from <= n,
        positions_in(texts, from) is None,
    ensures
        positions_in(texts, n) is None,
    decreases n,
{
    if from < n {
        lemma_positions_fail(texts, from, n - 1);
    }
}

impl BlanketDirectiveTarget {
    /// Reads a target.
    pub fn parse(raw: &str) -> (r: Option<Self>)
        ensures
            r is Some <==> parsed_target(raw@) is Some,
            r matches Some(t) ==> parsed_target(raw@) == Some(t@),
    {
        let (left, argument) = match split_at_first(raw, '#') {
            Some((front, back)) => (front, parse_argument(back)),
            None => (raw, Some((None, None))),
        };
        let (name, results) = match split_at_text(left, "->") {
            Some((front, back)) => (front, parse_positions(back)),
            None => (left, Some(OrderedSet::new())),
        };
        let names = parse_name(name);
        match (names, results, argument) {
            (Some(n), Some(result_selector), Some(a)) => Some(
                BlanketDirectiveTarget {
                    package_path: n.0,
                    owner_type: n.1,
                    member_name: n.2,
                    result_selector,
                    arg_index: a.0,
                    arg_predicate: a.1,
                },
            ),
            _ => None,
        }
    }
}

} // verus!
