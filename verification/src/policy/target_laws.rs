//! What holds of the texts that name targets.

use vstd::prelude::*;

use crate::policy::targets::{parsed_target, position, positions_in, TargetModel};
use crate::text::{all_digits, cut_at_first, cut_at_last, cut_at_text, digits, first_occurrence,
    first_of, last_of, lemma_first_of, lemma_last_of, number, pieces, suffix_removed};

verus! {

proof fn lemma_cut_at_first(a: Seq<char>, c: char, b: Seq<char>)
    requires
        !a.contains(c),
    ensures
        cut_at_first(a + seq![c] + b, c) == Some((a, b)),
        cut_at_first(a, c) is None,
{
    let s = a + seq![c] + b;
    lemma_first_of(s, c);
    lemma_first_of(a, c);
    let k = first_of(s, c);
    assert(s[a.len() as int] == c);
    if k < a.len() {
        assert(a[k] == s[k]);
        assert(a.contains(c));
    }
    assert(k == a.len());
    assert(s.take(k) =~= a);
    assert(s.skip(k + 1) =~= b);
}

proof fn lemma_cut_at_last(a: Seq<char>, c: char, b: Seq<char>)
    requires
        !b.contains(c),
    ensures
        cut_at_last(a + seq![c] + b, c) == Some((a, b)),
        cut_at_last(b, c) is None,
{
    let s = a + seq![c] + b;
    lemma_last_of(s, c);
    lemma_last_of(b, c);
    let k = last_of(s, c);
    assert(s[a.len() as int] == c);
    if k > a.len() {
        assert(b[k - a.len() - 1] == s[k]);
        assert(b.contains(c));
    }
    if last_of(b, c) >= 0 {
        assert(b.contains(c));
    }
    assert(k == a.len());
    assert(s.take(k) =~= a);
    assert(s.skip(k + 1) =~= b);
}

proof fn lemma_arrow_absent(s: Seq<char>)
    requires
        !s.contains('>'),
    ensures
        first_occurrence(s, "->"@) is None,
    decreases s.len(),
{
    reveal_strlit("->");
    if "->"@.is_prefix_of(s) {
        assert(s[1] == "->"@[1]);
        assert(s.contains('>'));
    }
    if s.len() > 0 {
        let rest = s.skip(1);
        if rest.contains('>') {
            let i = choose|i: int| 0 <= i < rest.len() && rest[i] == '>';
            assert(s[i + 1] == '>');
        }
        lemma_arrow_absent(rest);
    }
}

proof fn lemma_arrow(a: Seq<char>, b: Seq<char>)
    requires
        !a.contains('>'),
    ensures
        first_occurrence(a + "->"@ + b, "->"@) == Some(a.len() as int),
        cut_at_text(a + "->"@ + b, "->"@) == Some((a, b)),
    decreases a.len(),
{
    reveal_strlit("->");
    let s = a + "->"@ + b;
    if a.len() == 0 {
        assert(s.take(2) =~= "->"@);
        assert("->"@.is_prefix_of(s)) by {
            assert(s.subrange(0, 2) =~= "->"@);
        }
    } else {
        if "->"@.is_prefix_of(s) {
            assert(s[1] == "->"@[1]);
            if a.len() > 1 {
                assert(a[1] == s[1]);
                assert(a.contains('>'));
            } else {
                assert(s[1] == "->"@[0]);
            }
        }
        let rest = a.skip(1);
        if rest.contains('>') {
            let i = choose|i: int| 0 <= i < rest.len() && rest[i] == '>';
            assert(a[i + 1] == '>');
        }
        lemma_arrow(rest, b);
        assert(s.skip(1) =~= rest + "->"@ + b);
    }
    assert(s.take(a.len() as int) =~= a);
    assert(s.skip((a.len() + "->"@.len()) as int) =~= b);
}

/// Whether a text can be part of the name of a target: it is not empty, and holds
/// nothing that has a meaning of its own in a target.
pub open spec fn is_plain_name(s: Seq<char>) -> bool {
    s.len() > 0 && !s.contains('/') && !s.contains('.') && !s.contains('#') && !s.contains('>')
}

/// Whether a text can stand before the name of a package: it is empty, or ends
/// with a slash, and holds no sign that ends the name.
pub open spec fn is_plain_path(s: Seq<char>) -> bool {
    (s.len() == 0 || s.last() == '/') && !s.contains('#') && !s.contains('>')
}

/// The name of a target: of a symbol of a package, or of a member of a type.
pub open spec fn target_name(
    dir: Seq<char>,
    package: Seq<char>,
    owner: Option<Seq<char>>,
    member: Seq<char>,
) -> Seq<char> {
    dir + (package + seq!['.'] + match owner {
        Some(t) => t + seq!['.'] + member,
        None => member,
    })
}

proof fn lemma_contains_concat(a: Seq<char>, b: Seq<char>, c: char)
    ensures
        (a + b).contains(c) <==> a.contains(c) || b.contains(c),
{
    if a.contains(c) {
        let i = choose|i: int| 0 <= i < a.len() && a[i] == c;
        assert((a + b)[i] == c);
    }
    if b.contains(c) {
        let i = choose|i: int| 0 <= i < b.len() && b[i] == c;
        assert((a + b)[i + a.len()] == c);
    }
    if (a + b).contains(c) {
        let i = choose|i: int| 0 <= i < (a + b).len() && (a + b)[i] == c;
        if i < a.len() {
            assert(a[i] == c);
        } else {
            assert(b[i - a.len()] == c);
        }
    }
}

proof fn lemma_tail(package: Seq<char>, owner: Option<Seq<char>>, member: Seq<char>, c: char)
    requires
        is_plain_name(package),
        is_plain_name(member),
        owner matches Some(t) ==> is_plain_name(t),
        c == '/' || c == '#' || c == '>',
    ensures
        !(package + seq!['.'] + match owner {
            Some(t) => t + seq!['.'] + member,
            None => member,
        }).contains(c),
{
    let rest = match owner {
        Some(t) => t + seq!['.'] + member,
        None => member,
    };
    assert(!seq!['.'].contains(c));
    if let Some(t) = owner {
        lemma_contains_concat(t + seq!['.'], member, c);
        lemma_contains_concat(t, seq!['.'], c);
    }
    lemma_contains_concat(package + seq!['.'], rest, c);
    lemma_contains_concat(package, seq!['.'], c);
}

/// A target that is written down as a package, an optional type and a name is read
/// as just these, and concerns all results, whatever the arguments are.
pub proof fn law_written_targets_are_read_back(
    dir: Seq<char>,
    package: Seq<char>,
    owner: Option<Seq<char>>,
    member: Seq<char>,
)
    requires
        is_plain_path(dir),
        is_plain_name(package),
        is_plain_name(member),
        owner matches Some(t) ==> is_plain_name(t),
    ensures
        parsed_target(target_name(dir, package, owner, member)) == Some(
            TargetModel {
                package_path: dir + package,
                owner_type: owner,
                member_name: member,
                results: Set::<usize>::empty(),
                arg_index: None,
                predicate: None,
            },
        ),
{
    let rest = match owner {
        Some(t) => t + seq!['.'] + member,
        None => member,
    };
    let tail = package + seq!['.'] + rest;
    let s = target_name(dir, package, owner, member);
    lemma_tail(package, owner, member, '/');
    lemma_tail(package, owner, member, '#');
    lemma_tail(package, owner, member, '>');
    lemma_contains_concat(dir, tail, '#');
    lemma_contains_concat(dir, tail, '>');
    lemma_cut_at_first(s, '#', s);
    lemma_arrow_absent(s);
    reveal_strlit("/");
    if dir.len() > 0 {
        let front = dir.drop_last();
        assert(s =~= front + seq!['/'] + tail);
        lemma_cut_at_last(front, '/', tail);
        assert(front + "/"@ =~= dir);
    } else {
        lemma_cut_at_last(s, '/', tail);
        assert(s =~= tail);
        assert(Seq::<char>::empty() + package =~= dir + package);
    }
    lemma_cut_at_first(package, '.', rest);
    lemma_cut_at_first(member, '.', member);
    reveal_with_fuel(pieces, 4);
    if let Some(t) = owner {
        lemma_cut_at_first(t, '.', member);
        assert(pieces(member, '.') == seq![member]);
        assert(pieces(rest, '.') =~= seq![t, member]);
        assert(pieces(tail, '.') =~= seq![package, t, member]);
    } else {
        assert(pieces(member, '.') == seq![member]);
        assert(pieces(tail, '.') =~= seq![package, member]);
    }
}

proof fn lemma_positions(texts: Seq<Seq<char>>, n: int)
    requires
        0 <= n <= texts.len(),
    ensures
        positions_in(texts, n) is Some <==> forall|i: int|
            0 <= i < n ==> position(#[trigger] texts[i]) is Some,
        positions_in(texts, n) matches Some(s) ==> forall|p: usize|
            #[trigger] s.contains(p) <==> exists|i: int|
                0 <= i < n && position(#[trigger] texts[i]) == Some(p),
    decreases n,
{
    if n > 0 {
        lemma_positions(texts, n - 1);
        if let Some(now) = positions_in(texts, n) {
            let before = positions_in(texts, n - 1)->0;
            assert forall|p: usize|
                #[trigger] now.contains(p) <==> exists|i: int|
                    0 <= i < n && position(#[trigger] texts[i]) == Some(p) by {
                if before.contains(p) {
                    let i = choose|i: int|
                        0 <= i < n - 1 && position(#[trigger] texts[i]) == Some(p);
                    assert(position(texts[i]) == Some(p));
                }
                if now.contains(p) && !before.contains(p) {
                    assert(position(texts[n - 1]) == Some(p));
                }
                if exists|i: int| 0 <= i < n && position(#[trigger] texts[i]) == Some(p) {
                    let i = choose|i: int|
                        0 <= i < n && position(#[trigger] texts[i]) == Some(p);
                    if i < n - 1 {
                        assert(before.contains(p));
                    }
                }
            }
        }
    }
}

proof fn lemma_with_results(name: Seq<char>, r: Seq<char>)
    requires
        !name.contains('#'),
        !name.contains('>'),
        !r.contains('#'),
    ensures
        parsed_target(name + "->"@ + r) == match (
            parsed_target(name),
            positions_in(pieces(r, ','), pieces(r, ',').len() as int),
        ) {
            (Some(t), Some(rs)) => Some(TargetModel { results: rs, ..t }),
            _ => None,
        },
        parsed_target(name) matches Some(t) ==> t.results == Set::<usize>::empty(),
{
    reveal_strlit("->");
    let s = name + "->"@ + r;
    assert(!"->"@.contains('#'));
    lemma_contains_concat(name + "->"@, r, '#');
    lemma_contains_concat(name, "->"@, '#');
    lemma_cut_at_first(s, '#', s);
    lemma_cut_at_first(name, '#', name);
    lemma_arrow(name, r);
    lemma_arrow_absent(name);
}

/// A target with the position of a result behind it is the same one, for that
/// result alone; with several positions, for all of these. It cannot be read if one
/// of them is no number.
pub proof fn law_targets_name_results(name: Seq<char>, a: Seq<char>, b: Seq<char>)
    requires
        !name.contains('#'),
        !name.contains('>'),
        !a.contains(','),
        !a.contains('#'),
        !b.contains('#'),
        parsed_target(name) is Some,
    ensures
        position(a) is Some ==> parsed_target(name + "->"@ + a) == Some(
            TargetModel { results: set![position(a)->0], ..parsed_target(name)->0 },
        ),
        position(a) is None ==> parsed_target(name + "->"@ + a) is None,
        ({
            let one = parsed_target(name + "->"@ + a);
            let other = parsed_target(name + "->"@ + b);
            let both = parsed_target(name + "->"@ + (a + seq![','] + b));
            &&& both is Some <==> one is Some && other is Some
            &&& both is Some ==> both == Some(
                TargetModel {
                    results: one->0.results.union(other->0.results),
                    ..parsed_target(name)->0
                },
            )
        }),
{
    let ab = a + seq![','] + b;
    assert(!seq![','].contains('#'));
    lemma_contains_concat(a + seq![','], b, '#');
    lemma_contains_concat(a, seq![','], '#');
    lemma_with_results(name, a);
    lemma_with_results(name, b);
    lemma_with_results(name, ab);
    lemma_cut_at_first(a, ',', b);
    let pa = pieces(a, ',');
    let pb = pieces(b, ',');
    let pab = pieces(ab, ',');
    assert(pa == seq![a]);
    assert(pab == seq![a] + pb);
    lemma_positions(pa, 1);
    lemma_positions(pb, pb.len() as int);
    lemma_positions(pab, pab.len() as int);
    let ra = positions_in(pa, 1);
    let rb = positions_in(pb, pb.len() as int);
    let rab = positions_in(pab, pab.len() as int);
    assert(pa[0] == a);
    assert(pab[0] == a);
    assert forall|i: int| 0 <= i < pb.len() implies #[trigger] pb[i] == pab[i + 1] by {}
    assert forall|i: int| 1 <= i < pab.len() implies #[trigger] pab[i] == pb[i - 1] by {}
    if let Some(rs) = ra {
        assert(position(a) is Some);
        assert forall|p: usize| rs.contains(p) == set![position(a)->0].contains(p) by {
            if position(a) == Some(p) {
                assert(position(pa[0]) == Some(p));
            }
        }
        assert(rs =~= set![position(a)->0]);
    }
    if position(a) is Some {
        assert(ra is Some);
    }
    if rab is Some {
        assert forall|i: int| 0 <= i < pb.len() implies position(#[trigger] pb[i]) is Some by {
            assert(position(pab[i + 1]) is Some);
        }
        assert(position(pab[0]) is Some);
    }
    if ra is Some && rb is Some {
        assert forall|i: int| 0 <= i < pab.len() implies position(#[trigger] pab[i]) is Some by {
            if i > 0 {
                assert(position(pb[i - 1]) is Some);
            } else {
                assert(position(pa[0]) is Some);
            }
        }
        assert(rab is Some);
        assert forall|p: usize| rab->0.contains(p) == ra->0.union(rb->0).contains(p) by {
            if rab->0.contains(p) {
                let i = choose|i: int|
                    0 <= i < pab.len() && position(#[trigger] pab[i]) == Some(p);
                if i > 0 {
                    assert(position(pb[i - 1]) == Some(p));
                } else {
                    assert(position(pa[0]) == Some(p));
                }
            }
            if ra->0.contains(p) {
                assert(position(pab[0]) == Some(p));
            }
            if rb->0.contains(p) {
                let i = choose|i: int| 0 <= i < pb.len() && position(#[trigger] pb[i]) == Some(p);
                assert(position(pab[i + 1]) == Some(p));
            }
        }
        assert(rab->0 =~= ra->0.union(rb->0));
    }
}

proof fn lemma_digits_are_plain(d: Seq<char>, c: char)
    requires
        all_digits(d),
        c == '=' || c == '~' || c == '#',
    ensures
        !d.contains(c),
{
    if d.contains(c) {
        let i = choose|i: int| 0 <= i < d.len() && d[i] == c;
        assert('0' <= d[i] <= '9');
    }
}

/// A target with the position of an argument behind it is the same one, for that
/// argument; with a value behind the position, it is the same one where the
/// argument there is that value, or, with a tilde, contains it. It cannot be read if
/// what stands for the position is no number.
pub proof fn law_targets_name_arguments(name: Seq<char>, d: Seq<char>, value: Seq<char>)
    requires
        !name.contains('#'),
        parsed_target(name) is Some,
    ensures
        position(d) matches Some(p) ==> {
            &&& parsed_target(name + seq!['#'] + d) == Some(
                TargetModel { arg_index: Some(p), ..parsed_target(name)->0 },
            )
            &&& parsed_target(name + seq!['#'] + (d + seq!['='] + value)) == Some(
                TargetModel { predicate: Some((p, value, false)), ..parsed_target(name)->0 },
            )
            &&& parsed_target(name + seq!['#'] + (d + seq!['~'] + seq!['='] + value)) == Some(
                TargetModel { predicate: Some((p, value, true)), ..parsed_target(name)->0 },
            )
        },
        position(d) is None && !d.contains('=') ==> parsed_target(name + seq!['#'] + d) is None,
{
    lemma_cut_at_first(name, '#', d);
    lemma_cut_at_first(name, '#', d + seq!['='] + value);
    let fuzzy = d + seq!['~'];
    lemma_cut_at_first(name, '#', fuzzy + seq!['='] + value);
    reveal_strlit("~");
    if position(d) is Some {
        lemma_digits_are_plain(d, '=');
        lemma_digits_are_plain(d, '~');
        lemma_cut_at_first(d, '=', value);
        assert(!seq!['~'].contains('='));
        lemma_contains_concat(d, seq!['~'], '=');
        lemma_cut_at_first(fuzzy, '=', value);
        if "~"@.is_suffix_of(d) {
            assert(d.last() == "~"@[0]);
            assert(d[d.len() - 1] == '~');
            assert(d.contains('~'));
        }
        assert("~"@ =~= seq!['~']);
        assert("~"@.is_suffix_of(fuzzy)) by {
            assert(fuzzy.subrange(fuzzy.len() - 1, fuzzy.len() as int) =~= "~"@);
        }
        assert(suffix_removed(fuzzy, "~"@) == Some(d)) by {
            assert(fuzzy.take(fuzzy.len() - 1) =~= d);
        }
    } else if !d.contains('=') {
        lemma_cut_at_first(d, '=', value);
    }
}

proof fn lemma_digits(n: nat)
    ensures
        digits(n).len() > 0,
        all_digits(digits(n)),
        number(digits(n)) == n,
    decreases n,
{
    let last = ('0' as int + n % 10) as char;
    assert('0' <= last <= '9');
    assert(last as int - '0' as int == n % 10);
    let s = digits(n);
    if n < 10 {
        assert(s.drop_last() =~= Seq::<char>::empty());
        reveal_with_fuel(number, 2);
        assert(s.last() == last);
    } else {
        lemma_digits(n / 10);
        assert(s.drop_last() =~= digits(n / 10));
        assert(s.last() == last);
        assert forall|i: int| 0 <= i < s.len() implies '0' <= #[trigger] s[i] <= '9' by {
            if i < s.len() - 1 {
                assert(s[i] == digits(n / 10)[i]);
            }
        }
    }
}

/// The decimal digits of a number are read as that number.
pub proof fn law_positions_are_decimal(n: usize)
    ensures
        position(digits(n as nat)) == Some(n),
{
    lemma_digits(n as nat);
}

} // verus!
