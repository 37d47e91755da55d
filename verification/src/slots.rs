//! The fixed-capacity arrays that nodes are made of.
//!
//! Nodes keep their contents in `arrayvec::ArrayVec`. The verifier does not look
//! inside that type: what an array holds is named by `entries_of` (leaf entries) and
//! `links_of` (routing pairs), and every function below states, without proof, how
//! one `ArrayVec` method acts on that sequence.

use arrayvec::ArrayVec;
use vstd::prelude::*;

verus! {

/// Fewest entries a leaf other than the root may hold; also the fewest children
/// of an internal node other than the root.
pub const MIN_LEN: usize = 4;

/// Most entries a leaf may hold; also the most children of an internal node.
pub const MAX_LEN: usize = 2 * MIN_LEN - 1;

/// `arrayvec::ArrayVec`, carried as an opaque value.
#[verifier::external_type_specification]
#[verifier::external_body]
#[verifier::reject_recursive_types(T)]
pub struct ExArrayVec<T, const CAP: usize>(ArrayVec<T, CAP>);

/// The key/value pairs held by a leaf array, in index order.
pub uninterp spec fn entries_of(a: ArrayVec<(u64, u64), MAX_LEN>) -> Seq<(u64, u64)>;

/// The (child, separator) pairs held by a routing array, in index order.
pub uninterp spec fn links_of(a: ArrayVec<(usize, usize), MAX_LEN>) -> Seq<(usize, usize)>;

/// `ArrayVec::new`: the new array holds nothing.
#[verifier::external_body]
pub(crate) fn entries_new() -> (a: ArrayVec<(u64, u64), MAX_LEN>)
    ensures
        entries_of(a) == Seq::<(u64, u64)>::empty(),
{
    ArrayVec::new()
}

/// `ArrayVec::len`: the number of elements held, which never exceeds the capacity.
#[verifier::external_body]
pub(crate) fn entries_len(a: &ArrayVec<(u64, u64), MAX_LEN>) -> (n: usize)
    ensures
        n == entries_of(*a).len(),
        n <= MAX_LEN,
{
    a.len()
}

/// Indexing through `ArrayVec`'s `Deref` to a slice: a reference to element `i`.
/// Out-of-range indices panic and are excluded.
#[verifier::external_body]
pub(crate) fn entries_at(a: &ArrayVec<(u64, u64), MAX_LEN>, i: usize) -> (e: &(u64, u64))
    requires
        i < entries_of(*a).len(),
    ensures
        *e == entries_of(*a)[i as int],
{
    &a[i]
}

/// Indexing through `ArrayVec`'s `DerefMut`: a mutable reference to element `i`;
/// whatever is written through it replaces that element and nothing else.
#[verifier::external_body]
pub(crate) fn entries_at_mut(a: &mut ArrayVec<(u64, u64), MAX_LEN>, i: usize) -> (e: &mut (
    u64,
    u64,
))
    requires
        i < entries_of(*old(a)).len(),
    ensures
        *e == entries_of(*old(a))[i as int],
        entries_of(*final(a)) == entries_of(*old(a)).update(i as int, *final(e)),
{
    &mut a[i]
}

/// `ArrayVec::insert`: puts `e` at index `i` and shifts the rest up. It panics on a
/// full array or an index past the end; both are excluded.
#[verifier::external_body]
pub(crate) fn entries_insert(a: &mut ArrayVec<(u64, u64), MAX_LEN>, i: usize, e: (u64, u64))
    requires
        i <= entries_of(*old(a)).len(),
        entries_of(*old(a)).len() < MAX_LEN,
    ensures
        entries_of(*final(a)) == entries_of(*old(a)).insert(i as int, e),
{
    a.insert(i, e)
}

/// `ArrayVec::remove`: takes out and returns element `i`, shifting the rest down.
/// It panics on an out-of-range index, which is excluded.
#[verifier::external_body]
pub(crate) fn entries_remove(a: &mut ArrayVec<(u64, u64), MAX_LEN>, i: usize) -> (e: (u64, u64))
    requires
        i < entries_of(*old(a)).len(),
    ensures
        e == entries_of(*old(a))[i as int],
        entries_of(*final(a)) == entries_of(*old(a)).remove(i as int),
{
    a.remove(i)
}

/// `ArrayVec::drain` over `at..`, collected into a new array: the elements from
/// `at` on move to the result in the same order, the ones before stay. The range
/// must lie within the array, else `drain` panics.
#[verifier::external_body]
pub(crate) fn entries_split_off(a: &mut ArrayVec<(u64, u64), MAX_LEN>, at: usize) -> (b: ArrayVec<
    (u64, u64),
    MAX_LEN,
>)
    requires
        at <= entries_of(*old(a)).len(),
    ensures
        entries_of(*final(a)) == entries_of(*old(a)).subrange(0, at as int),
        entries_of(b) == entries_of(*old(a)).subrange(at as int, entries_of(*old(a)).len() as int),
{
    a.drain(at..).collect()
}

/// `ArrayVec::new`: the new array holds nothing.
#[verifier::external_body]
pub(crate) fn links_new() -> (a: ArrayVec<(usize, usize), MAX_LEN>)
    ensures
        links_of(a) == Seq::<(usize, usize)>::empty(),
{
    ArrayVec::new()
}

/// `ArrayVec::len`: the number of elements held, which never exceeds the capacity.
#[verifier::external_body]
pub(crate) fn links_len(a: &ArrayVec<(usize, usize), MAX_LEN>) -> (n: usize)
    ensures
        n == links_of(*a).len(),
        n <= MAX_LEN,
{
    a.len()
}

/// Indexing through `ArrayVec`'s `Deref` to a slice: a reference to element `i`.
/// Out-of-range indices panic and are excluded.
#[verifier::external_body]
pub(crate) fn links_at(a: &ArrayVec<(usize, usize), MAX_LEN>, i: usize) -> (e: &(usize, usize))
    requires
        i < links_of(*a).len(),
    ensures
        *e == links_of(*a)[i as int],
{
    &a[i]
}

/// Indexing through `ArrayVec`'s `DerefMut`: a mutable reference to element `i`;
/// whatever is written through it replaces that element and nothing else.
#[verifier::external_body]
pub(crate) fn links_at_mut(a: &mut ArrayVec<(usize, usize), MAX_LEN>, i: usize) -> (e: &mut (
    usize,
    usize,
))
    requires
        i < links_of(*old(a)).len(),
    ensures
        *e == links_of(*old(a))[i as int],
        links_of(*final(a)) == links_of(*old(a)).update(i as int, *final(e)),
{
    &mut a[i]
}

/// `ArrayVec::insert`: puts `e` at index `i` and shifts the rest up. It panics on a
/// full array or an index past the end; both are excluded.
#[verifier::external_body]
pub(crate) fn links_insert(a: &mut ArrayVec<(usize, usize), MAX_LEN>, i: usize, e: (usize, usize))
    requires
        i <= links_of(*old(a)).len(),
        links_of(*old(a)).len() < MAX_LEN,
    ensures
        links_of(*final(a)) == links_of(*old(a)).insert(i as int, e),
{
    a.insert(i, e)
}

/// `ArrayVec::remove`: takes out and returns element `i`, shifting the rest down.
/// It panics on an out-of-range index, which is excluded.
#[verifier::external_body]
pub(crate) fn links_remove(a: &mut ArrayVec<(usize, usize), MAX_LEN>, i: usize) -> (e: (
    usize,
    usize,
))
    requires
        i < links_of(*old(a)).len(),
    ensures
        e == links_of(*old(a))[i as int],
        links_of(*final(a)) == links_of(*old(a)).remove(i as int),
{
    a.remove(i)
}

/// `ArrayVec::drain` over `at..`, collected into a new array: the elements from
/// `at` on move to the result in the same order, the ones before stay. The range
/// must lie within the array, else `drain` panics.
#[verifier::external_body]
pub(crate) fn links_split_off(a: &mut ArrayVec<(usize, usize), MAX_LEN>, at: usize) -> (b: ArrayVec<
    (usize, usize),
    MAX_LEN,
>)
    requires
        at <= links_of(*old(a)).len(),
    ensures
        links_of(*final(a)) == links_of(*old(a)).subrange(0, at as int),
        links_of(b) == links_of(*old(a)).subrange(at as int, links_of(*old(a)).len() as int),
{
    a.drain(at..).collect()
}

} // verus!
