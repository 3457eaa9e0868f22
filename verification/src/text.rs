//! Small operations on text.

use vstd::prelude::*;

use crate::ordered::same_text;

verus! {

/// Whether a character counts as white space (the Unicode property
/// `White_Space`).
pub open spec fn is_white(c: char) -> bool {
    ||| '\u{9}' <= c <= '\u{d}'
    ||| c == ' '
    ||| c == '\u{85}'
    ||| c == '\u{a0}'
    ||| c == '\u{1680}'
    ||| '\u{2000}' <= c <= '\u{200a}'
    ||| c == '\u{2028}'
    ||| c == '\u{2029}'
    ||| c == '\u{202f}'
    ||| c == '\u{205f}'
    ||| c == '\u{3000}'
}

/// Whether a character counts as white space.
pub fn char_is_white(c: char) -> (r: bool)
    ensures
        r == is_white(c),
{
    ('\u{9}' <= c && c <= '\u{d}') || c == ' ' || c == '\u{85}' || c == '\u{a0}' || c == '\u{1680}'
        || ('\u{2000}' <= c && c <= '\u{200a}') || c == '\u{2028}' || c == '\u{2029}' || c
        == '\u{202f}' || c == '\u{205f}' || c == '\u{3000}'
}

/// A text without the white space at its front.
pub open spec fn trimmed_front(s: Seq<char>) -> Seq<char>
    decreases s.len(),
{
    if s.len() > 0 && is_white(s[0]) {
        trimmed_front(s.drop_first())
    } else {
        s
    }
}

/// A text without the white space at its back.
pub open spec fn trimmed_back(s: Seq<char>) -> Seq<char>
    decreases s.len(),
{
    if s.len() > 0 && is_white(s.last()) {
        trimmed_back(s.drop_last())
    } else {
        s
    }
}

/// A text without the white space at either end.
pub open spec fn trimmed(s: Seq<char>) -> Seq<char> {
    trimmed_back(trimmed_front(s))
}

/// The text without the white space at either end.
pub fn trim<'a>(s: &'a str) -> (r: &'a str)
    ensures
        r@ == trimmed(s@),
{
    let n: usize = s.unicode_len();
    let mut from: usize = 0;
    proof {
        assert(s@.subrange(0, n as int) =~= s@);
    }
    while from < n && char_is_white(s.get_char(from))
        invariant
            n == s@.len(),
            from <= n,
            trimmed_front(s@) == trimmed_front(s@.subrange(from as int, n as int)),
        decreases n - from,
    {
        proof {
            assert(s@.subrange(from as int, n as int).drop_first() =~= s@.subrange(
                from + 1,
                n as int,
            ));
        }
        from = from + 1;
    }
    let mut to: usize = n;
    while from < to && char_is_white(s.get_char(to - 1))
        invariant
            n == s@.len(),
            from <= to <= n,
            trimmed(s@) == trimmed_back(s@.subrange(from as int, to as int)),
        decreases to,
    {
        proof {
            assert(s@.subrange(from as int, to as int).drop_last() =~= s@.subrange(
                from as int,
                to - 1,
            ));
        }
        to = to - 1;
    }
    s.substring_char(from, to)
}

/// The position at which a character first occurs in a text; its length if
/// it does not occur.
pub open spec fn first_of(s: Seq<char>, c: char) -> int
    decreases s.len(),
{
    if s.len() == 0 || s[0] == c {
        0
    } else {
        1 + first_of(s.drop_first(), c)
    }
}

/// The first occurrence of a character lies in the text, and nothing before
/// it equals the character.
pub proof fn lemma_first_of(s: Seq<char>, c: char)
    ensures
        0 <= first_of(s, c) <= s.len(),
        first_of(s, c) < s.len() ==> s[first_of(s, c)] == c,
        forall|i: int| 0 <= i < first_of(s, c) ==> s[i] != c,
        first_of(s, c) < s.len() <==> s.contains(c),
    decreases s.len(),
{
    if s.len() > 0 && s[0] != c {
        let t = s.drop_first();
        lemma_first_of(t, c);
        assert forall|i: int| 0 <= i < first_of(s, c) implies s[i] != c by {
            if i > 0 {
                assert(t[i - 1] == s[i]);
            }
        }
        if t.contains(c) {
            let k = choose|k: int| 0 <= k < t.len() && t[k] == c;
            assert(s[k + 1] == c);
        }
        if s.contains(c) {
            let k = choose|k: int| 0 <= k < s.len() && s[k] == c;
            assert(t[k - 1] == c);
        }
    } else if s.len() > 0 {
        assert(s[0] == c);
    }
}

/// The position at which a character first occurs; the length of the text in
/// characters if it does not.
pub fn find_char(s: &str, c: char) -> (r: usize)
    ensures
        r == first_of(s@, c),
        r <= s@.len(),
{
    let n: usize = s.unicode_len();
    let mut i: usize = 0;
    proof {
        assert(s@.skip(0) =~= s@);
        lemma_first_of(s@, c);
    }
    while i < n
        invariant
            n == s@.len(),
            i <= n,
            first_of(s@, c) == i + first_of(s@.skip(i as int), c),
        decreases n - i,
    {
        if s.get_char(i) == c {
            return i;
        }
        proof {
            assert(s@.skip(i as int).drop_first() =~= s@.skip(i + 1));
        }
        i = i + 1;
    }
    n
}

/// Whether a text begins with another.
pub fn starts_with(s: &str, prefix: &str) -> (r: bool)
    ensures
        r == prefix@.is_prefix_of(s@),
{
    let n: usize = s.unicode_len();
    let m: usize = prefix.unicode_len();
    if n < m {
        return false;
    }
    proof {
        assert(s@.subrange(0, m as int) =~= prefix@ <==> prefix@.is_prefix_of(s@));
    }
    same_text(s.substring_char(0, m), prefix)
}

/// Whether a text ends with another.
pub fn ends_with(s: &str, suffix: &str) -> (r: bool)
    ensures
        r == suffix@.is_suffix_of(s@),
{
    let n: usize = s.unicode_len();
    let m: usize = suffix.unicode_len();
    if n < m {
        return false;
    }
    proof {
        assert(s@.subrange(n - m, n as int) =~= suffix@ <==> suffix@.is_suffix_of(s@));
    }
    same_text(s.substring_char(n - m, n), suffix)
}

/// The decimal digits of a number.
pub open spec fn digits(n: nat) -> Seq<char>
    decreases n,
{
    let last = ('0' as int + n % 10) as char;
    if n < 10 {
        seq![last]
    } else {
        digits(n / 10).push(last)
    }
}

/// The decimal digits of a number.
pub fn decimal(n: usize) -> (r: String)
    ensures
        r@ == digits(n as nat),
    decreases n,
{
    let d: usize = n % 10;
    let table = "0123456789";
    proof {
        reveal_strlit("0123456789");
        assert(table@[d as int] == ('0' as int + d) as char);
    }
    let last = table.substring_char(d, d + 1);
    proof {
        assert(last@ =~= seq![('0' as int + d) as char]);
    }
    if n < 10 {
        last.to_owned()
    } else {
        let front = decimal(n / 10);
        proof {
            assert(front@ + last@ =~= front@.push(('0' as int + d) as char));
        }
        front.concat(last)
    }
}

/// The position at which a character last occurs in a text; -1 if it does not
/// occur.
pub open spec fn last_of(s: Seq<char>, c: char) -> int
    decreases s.len(),
{
    if s.len() == 0 {
        -1
    } else if s.last() == c {
        s.len() - 1
    } else {
        last_of(s.drop_last(), c)
    }
}

/// What stands before and after the last occurrence of a character.
pub open spec fn cut_at_last(s: Seq<char>, c: char) -> Option<(Seq<char>, Seq<char>)> {
    if last_of(s, c) < 0 {
        None
    } else {
        Some((s.take(last_of(s, c)), s.skip(last_of(s, c) + 1)))
    }
}

/// The last occurrence of a character lies in the text.
pub proof fn lemma_last_of(s: Seq<char>, c: char)
    ensures
        -1 <= last_of(s, c) < s.len(),
        last_of(s, c) >= 0 ==> s[last_of(s, c)] == c,
        forall|i: int| last_of(s, c) < i < s.len() ==> s[i] != c,
    decreases s.len(),
{
    if s.len() > 0 && s.last() != c {
        let t = s.drop_last();
        lemma_last_of(t, c);
        assert forall|i: int| last_of(s, c) < i < s.len() implies s[i] != c by {
            if i < t.len() {
                assert(t[i] == s[i]);
            }
        }
    }
}

/// What stands before and after the last occurrence of a character.
pub fn split_at_last<'a>(s: &'a str, c: char) -> (r: Option<(&'a str, &'a str)>)
    ensures
        r is Some <==> cut_at_last(s@, c) is Some,
        r matches Some(p) ==> cut_at_last(s@, c) == Some((p.0@, p.1@)),
{
    let n: usize = s.unicode_len();
    let mut i: usize = n;
    proof {
        assert(s@.take(n as int) =~= s@);
        lemma_last_of(s@, c);
    }
    while i > 0
        invariant
            n == s@.len(),
            i <= n,
            last_of(s@, c) == last_of(s@.take(i as int), c),
        decreases i,
    {
        proof {
            assert(s@.take(i as int).drop_last() =~= s@.take(i - 1));
            assert(s@.take(i as int).last() == s@[i - 1]);
        }
        if s.get_char(i - 1) == c {
            let before = s.substring_char(0, i - 1);
            let after = s.substring_char(i, n);
            proof {
                assert(before@ =~= s@.take(i - 1));
                assert(after@ =~= s@.skip(i as int));
            }
            return Some((before, after));
        }
        i = i - 1;
    }
    None
}

/// The text without a suffix, if it ends with it.
pub open spec fn suffix_removed(s: Seq<char>, suffix: Seq<char>) -> Option<Seq<char>> {
    if suffix.is_suffix_of(s) {
        Some(s.take(s.len() - suffix.len()))
    } else {
        None
    }
}

/// The text without a suffix, if it ends with it.
pub fn strip_suffix<'a>(s: &'a str, suffix: &str) -> (r: Option<&'a str>)
    ensures
        r is Some <==> suffix_removed(s@, suffix@) is Some,
        r matches Some(t) ==> suffix_removed(s@, suffix@) == Some(t@),
{
    if ends_with(s, suffix) {
        let t = s.substring_char(0, s.unicode_len() - suffix.unicode_len());
        proof {
            assert(t@ =~= s@.take(s@.len() - suffix@.len()));
        }
        Some(t)
    } else {
        None
    }
}

/// The text without a prefix, if it begins with it.
pub open spec fn prefix_removed(s: Seq<char>, prefix: Seq<char>) -> Option<Seq<char>> {
    if prefix.is_prefix_of(s) {
        Some(s.skip(prefix.len() as int))
    } else {
        None
    }
}

/// The text without a prefix, if it begins with it.
pub fn strip_prefix<'a>(s: &'a str, prefix: &str) -> (r: Option<&'a str>)
    ensures
        r is Some <==> prefix_removed(s@, prefix@) is Some,
        r matches Some(t) ==> prefix_removed(s@, prefix@) == Some(t@),
{
    if starts_with(s, prefix) {
        let t = s.substring_char(prefix.unicode_len(), s.unicode_len());
        proof {
            assert(t@ =~= s@.skip(prefix@.len() as int));
        }
        Some(t)
    } else {
        None
    }
}

/// Whether a text consists of decimal digits only.
pub open spec fn all_digits(s: Seq<char>) -> bool {
    forall|i: int| 0 <= i < s.len() ==> '0' <= #[trigger] s[i] <= '9'
}

/// The number that decimal digits stand for.
pub open spec fn number(s: Seq<char>) -> nat
    decreases s.len(),
{
    if s.len() == 0 {
        0
    } else {
        10 * number(s.drop_last()) + (s.last() as int - '0' as int) as nat
    }
}

/// The number that decimal digits stand for, if it is at most a limit, and one
/// more than the limit otherwise; none if there is anything but digits.
pub fn bounded_number(s: &str, limit: usize) -> (r: Option<usize>)
    requires
        limit < 1000,
    ensures
        r is Some <==> all_digits(s@),
        r matches Some(n) ==> n == if number(s@) <= limit {
            number(s@) as int
        } else {
            limit + 1
        },
{
    let len: usize = s.unicode_len();
    let mut i: usize = 0;
    let mut n: usize = 0;
    proof {
        assert(s@.take(0) =~= Seq::<char>::empty());
    }
    while i < len
        invariant
            i <= len,
            len == s@.len(),
            limit < 1000,
            all_digits(s@.take(i as int)),
            n == if number(s@.take(i as int)) <= limit {
                number(s@.take(i as int)) as int
            } else {
                limit + 1
            },
        decreases len - i,
    {
        let c = s.get_char(i);
        if !('0' <= c && c <= '9') {
            return None;
        }
        proof {
            let upto = s@.take(i + 1);
            assert(upto.drop_last() =~= s@.take(i as int));
            assert(upto.last() == c);
            assert forall|k: int| 0 <= k < upto.len() implies '0' <= #[trigger] upto[k] <= '9' by {
                if k < i {
                    assert(upto[k] == s@.take(i as int)[k]);
                }
            }
        }
        let d: usize = (c as u32 - '0' as u32) as usize;
        let m: usize = 10 * n + d;
        n = if m <= limit { m } else { limit + 1 };
        i = i + 1;
    }
    proof {
        assert(s@.take(len as int) =~= s@);
    }
    Some(n)
}

/// What stands before and after the first occurrence of a character.
pub open spec fn cut_at_first(s: Seq<char>, c: char) -> Option<(Seq<char>, Seq<char>)> {
    if first_of(s, c) < s.len() {
        Some((s.take(first_of(s, c)), s.skip(first_of(s, c) + 1)))
    } else {
        None
    }
}

/// What stands before and after the first occurrence of a character.
pub fn split_at_first<'a>(s: &'a str, c: char) -> (r: Option<(&'a str, &'a str)>)
    ensures
        r is Some <==> cut_at_first(s@, c) is Some,
        r matches Some(p) ==> cut_at_first(s@, c) == Some((p.0@, p.1@)),
{
    let n: usize = s.unicode_len();
    let k: usize = find_char(s, c);
    if k < n {
        let front = s.substring_char(0, k);
        let back = s.substring_char(k + 1, n);
        proof {
            assert(front@ =~= s@.take(k as int));
            assert(back@ =~= s@.skip(k + 1));
        }
        Some((front, back))
    } else {
        None
    }
}

/// The pieces of a text between the occurrences of a character.
pub open spec fn pieces(s: Seq<char>, c: char) -> Seq<Seq<char>>
    decreases s.len(),
    via pieces_decreases
{
    match cut_at_first(s, c) {
        Some((front, back)) => seq![front] + pieces(back, c),
        None => seq![s],
    }
}

#[via_fn]
proof fn pieces_decreases(s: Seq<char>, c: char) {
    lemma_first_of(s, c);
}

/// The texts of a list of text slices.
pub open spec fn slice_views(v: Seq<&str>) -> Seq<Seq<char>> {
    v.map_values(|s: &str| s@)
}

/// The pieces of a text between the occurrences of a character.
pub fn split<'a>(s: &'a str, c: char) -> (r: Vec<&'a str>)
    ensures
        slice_views(r@) == pieces(s@, c),
        r@.len() > 0,
    decreases s@.len(),
{
    proof {
        lemma_first_of(s@, c);
    }
    let mut r: Vec<&'a str> = Vec::new();
    match split_at_first(s, c) {
        Some((front, back)) => {
            let mut rest = split(back, c);
            let ghost tail = rest@;
            r.push(front);
            r.append(&mut rest);
            proof {
                assert(r@ =~= seq![front] + tail);
                assert(slice_views(r@) =~= seq![front@] + slice_views(tail));
            }
        },
        None => {
            r.push(s);
            proof {
                assert(slice_views(r@) =~= seq![s@]);
            }
        },
    }
    r
}

/// Where a text occurs first in another; none if it does not.
pub open spec fn first_occurrence(s: Seq<char>, part: Seq<char>) -> Option<int>
    decreases s.len(),
{
    if part.is_prefix_of(s) {
        Some(0)
    } else if s.len() == 0 {
        None
    } else {
        match first_occurrence(s.skip(1), part) {
            Some(i) => Some(i + 1),
            None => None,
        }
    }
}

/// A first occurrence lies in the text.
pub proof fn lemma_first_occurrence(s: Seq<char>, part: Seq<char>)
    ensures
        first_occurrence(s, part) matches Some(i) ==> 0 <= i && i + part.len() <= s.len(),
    decreases s.len(),
{
    if !part.is_prefix_of(s) && s.len() > 0 {
        lemma_first_occurrence(s.skip(1), part);
    }
}

/// What stands before and after the first occurrence of a text in another.
pub open spec fn cut_at_text(s: Seq<char>, part: Seq<char>) -> Option<(Seq<char>, Seq<char>)> {
    match first_occurrence(s, part) {
        Some(i) => Some((s.take(i), s.skip(i + part.len()))),
        None => None,
    }
}

/// What stands before and after the first occurrence of a text in another.
pub fn split_at_text<'a>(s: &'a str, part: &str) -> (r: Option<(&'a str, &'a str)>)
    ensures
        r is Some <==> cut_at_text(s@, part@) is Some,
        r matches Some(p) ==> cut_at_text(s@, part@) == Some((p.0@, p.1@)),
{
    let n: usize = s.unicode_len();
    let m: usize = part.unicode_len();
    let mut i: usize = 0;
    proof {
        assert(s@.skip(0) =~= s@);
        lemma_first_occurrence(s@, part@);
    }
    while i < n && !starts_with(s.substring_char(i, n), part)
        invariant
            i <= n,
            n == s@.len(),
            m == part@.len(),
            first_occurrence(s@, part@) == match first_occurrence(s@.skip(i as int), part@) {
                Some(k) => Some(k + i),
                None => None,
            },
        decreases n - i,
    {
        proof {
            assert(s@.subrange(i as int, n as int) =~= s@.skip(i as int));
            assert(s@.skip(i as int).skip(1) =~= s@.skip(i + 1));
        }
        i = i + 1;
    }
    let rest = s.substring_char(i, n);
    proof {
        assert(rest@ =~= s@.skip(i as int));
        lemma_first_occurrence(s@.skip(i as int), part@);
    }
    if starts_with(rest, part) {
        let front = s.substring_char(0, i);
        let back = s.substring_char(i + m, n);
        proof {
            assert(front@ =~= s@.take(i as int));
            assert(back@ =~= s@.skip(i + m));
        }
        Some((front, back))
    } else {
        None
    }
}

/// What the standard library takes to be a letter or a digit.
pub uninterp spec fn alphanumeric(c: char) -> bool;

/// Calls [`char::is_alphanumeric`], which tells whether a character has the
/// Unicode property `Alphabetic` or is in one of the categories for numbers.
/// Among the ASCII characters those are the letters and the digits.
#[verifier::external_body]
pub(crate) fn is_alphanumeric(c: char) -> (r: bool)
    ensures
        r == alphanumeric(c),
        c <= '\u{7f}' ==> r == ('a' <= c <= 'z' || 'A' <= c <= 'Z' || '0' <= c <= '9'),
{
    c.is_alphanumeric()
}

/// What the standard library takes to be an uppercase letter.
pub uninterp spec fn uppercase(c: char) -> bool;

/// Calls [`char::is_uppercase`], which tells whether a character has the
/// Unicode property `Uppercase`. Among the ASCII characters those are the
/// capital letters.
#[verifier::external_body]
pub(crate) fn is_uppercase(c: char) -> (r: bool)
    ensures
        r == uppercase(c),
        c <= '\u{7f}' ==> r == ('A' <= c <= 'Z'),
{
    c.is_uppercase()
}

} // verus!
