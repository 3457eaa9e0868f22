//! Collections that remember the order in which they were filled.

use vstd::prelude::*;

use crate::build_constraints::views;

verus! {

/// [`indexmap::IndexMap`], a hash map that keeps its entries in the order in
/// which they were inserted.
#[verifier::external_type_specification]
#[verifier::external_body]
#[verifier::reject_recursive_types(K)]
#[verifier::reject_recursive_types(V)]
#[verifier::reject_recursive_types(S)]
pub struct ExIndexMap<K, V, S>(indexmap::IndexMap<K, V, S>);

/// [`indexmap::IndexSet`], a hash set that keeps its elements in the order in
/// which they were inserted.
#[verifier::external_type_specification]
#[verifier::external_body]
#[verifier::reject_recursive_types(T)]
#[verifier::reject_recursive_types(S)]
pub struct ExIndexSet<T, S>(indexmap::IndexSet<T, S>);

/// The entries of a map, in order.
pub uninterp spec fn entries(m: indexmap::IndexMap<String, Vec<String>>) -> Seq<(Seq<char>, Seq<Seq<char>>)>;

/// The elements of a set, in order.
pub uninterp spec fn members(s: indexmap::IndexSet<usize>) -> Seq<usize>;

/// Calls [`indexmap::IndexMap::new`], which makes a map without entries.
#[verifier::external_body]
pub(crate) fn new_map() -> (r: indexmap::IndexMap<String, Vec<String>>)
    ensures
        entries(r) == Seq::<(Seq<char>, Seq<Seq<char>>)>::empty(),
{
    indexmap::IndexMap::new()
}

/// Calls [`indexmap::IndexMap::len`], which counts the entries.
#[verifier::external_body]
pub(crate) fn count_entries(m: &indexmap::IndexMap<String, Vec<String>>) -> (r: usize)
    ensures
        r == entries(*m).len(),
{
    m.len()
}

/// Calls [`indexmap::IndexMap::get_index`], which gives the entry at a
/// position, counted in the order of insertion; there is one at every position
/// below the number of entries.
#[verifier::external_body]
pub(crate) fn entry_at(m: &indexmap::IndexMap<String, Vec<String>>, i: usize) -> (r: Option<
    (&String, &Vec<String>),
>)
    ensures
        r is Some <==> i < entries(*m).len(),
        r matches Some(e) ==> (e.0@, views(e.1@)) == entries(*m)[i as int],
{
    m.get_index(i)
}

/// Calls [`indexmap::IndexSet::new`], which makes a set without elements.
#[verifier::external_body]
pub(crate) fn new_set() -> (r: indexmap::IndexSet<usize>)
    ensures
        members(r) == Seq::<usize>::empty(),
{
    indexmap::IndexSet::new()
}

/// Calls [`indexmap::IndexSet::insert`], which puts a number behind all others
/// and returns `true`, unless it is already there: then nothing changes and the
/// result is `false`.
#[verifier::external_body]
pub(crate) fn insert_member(s: &mut indexmap::IndexSet<usize>, n: usize) -> (r: bool)
    ensures
        r == !members(*old(s)).contains(n),
        members(*final(s)) == if r {
            members(*old(s)).push(n)
        } else {
            members(*old(s))
        },
{
    s.insert(n)
}

/// Calls [`indexmap::IndexSet::len`], which counts the elements.
#[verifier::external_body]
pub(crate) fn count_members(s: &indexmap::IndexSet<usize>) -> (r: usize)
    ensures
        r == members(*s).len(),
{
    s.len()
}

/// Calls [`indexmap::IndexSet::get_index`], which gives the element at a
/// position, counted in the order of insertion; there is one at every position
/// below the number of elements.
#[verifier::external_body]
pub(crate) fn member_at(s: &indexmap::IndexSet<usize>, i: usize) -> (r: Option<&usize>)
    ensures
        r is Some <==> i < members(*s).len(),
        r matches Some(n) ==> *n == members(*s)[i as int],
{
    s.get_index(i)
}

} // verus!
