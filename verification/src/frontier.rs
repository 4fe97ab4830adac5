//! The two collections of the relaxation: the frontier, a priority queue of
//! pixels that takes the least priority first, and the set of visited pixels.
//!
//! The frontier is a `PriorityQueue` of the `priority_queue` crate over
//! `Reverse`d tuples, so that its greatest item is the least tuple. The set is
//! a standard hash set with the hasher of the `ahash` crate. Both are reached
//! through wrappers; what a frontier holds is the uninterpreted
//! `frontier_entries`, and what a set holds is its view.
use ahash::HashSetExt;
use priority_queue::PriorityQueue;
use std::cmp::Reverse;
use std::collections::HashSet;
use vstd::prelude::*;

verus! {

/// The `PriorityQueue` of the `priority_queue` crate, as an opaque type.
#[verifier::external_type_specification]
#[verifier::external_body]
#[verifier::reject_recursive_types(I)]
#[verifier::reject_recursive_types(P)]
#[verifier::reject_recursive_types(H)]
pub struct ExPriorityQueue<I, P, H>(PriorityQueue<I, P, H>);

/// The standard `Reverse`, which turns the order of what it holds around,
/// as an opaque type.
#[verifier::external_type_specification]
#[verifier::external_body]
#[verifier::reject_recursive_types(T)]
pub struct ExReverse<T>(Reverse<T>);

/// The hasher state of the `ahash` crate, as an opaque type.
#[verifier::external_type_specification]
#[verifier::external_body]
pub struct ExRandomState(ahash::RandomState);

/// A position on the canvas: column, then row.
pub type Pixel = (u32, u32);

/// A priority: the rank of a key, then its fields, then the pixel that waits
/// with it. Tuples are ordered by their first component, then by the second,
/// and so on; as the pixel is part of the priority, no two pixels ever wait
/// with the same one.
pub type Priority = (u64, i64, i64, u8, bool, u32, u32);

/// The pixels that wait to be finalised, each with its priority.
pub type Frontier = PriorityQueue<Pixel, Reverse<Priority>>;

/// The pixels that no longer take a new priority.
pub type Visited = HashSet<Pixel, ahash::RandomState>;

/// The priority of each pixel that a frontier holds.
pub uninterp spec fn frontier_entries(frontier: Frontier) -> Map<Pixel, Priority>;

/// The order of priorities: that of tuples, with `false` before `true`.
pub open spec fn priority_lt(a: Priority, b: Priority) -> bool {
    ||| a.0 < b.0
    ||| a.0 == b.0 && a.1 < b.1
    ||| a.0 == b.0 && a.1 == b.1 && a.2 < b.2
    ||| a.0 == b.0 && a.1 == b.1 && a.2 == b.2 && a.3 < b.3
    ||| a.0 == b.0 && a.1 == b.1 && a.2 == b.2 && a.3 == b.3 && !a.4 && b.4
    ||| a.0 == b.0 && a.1 == b.1 && a.2 == b.2 && a.3 == b.3 && a.4 == b.4 && a.5 < b.5
    ||| a.0 == b.0 && a.1 == b.1 && a.2 == b.2 && a.3 == b.3 && a.4 == b.4 && a.5 == b.5 && a.6
        < b.6
}

/// `PriorityQueue::new`: a frontier that holds nothing.
#[verifier::external_body]
pub(crate) fn frontier_new() -> (frontier: Frontier)
    ensures
        frontier_entries(frontier) =~= Map::empty(),
{
    PriorityQueue::new()
}

/// `PriorityQueue::push`: the pixel gets the given priority, whether or not
/// it had one.
#[verifier::external_body]
pub(crate) fn frontier_push(frontier: &mut Frontier, pixel: Pixel, priority: Priority)
    ensures
        frontier_entries(*final(frontier)) == frontier_entries(*old(frontier)).insert(pixel, priority),
{
    frontier.push(pixel, Reverse(priority));
}

/// `PriorityQueue::push_increase` under `Reverse`: the pixel gets the given
/// priority if it has none or one that comes after the given one; otherwise
/// nothing changes.
#[verifier::external_body]
pub(crate) fn frontier_push_increase(frontier: &mut Frontier, pixel: Pixel, priority: Priority)
    ensures
        frontier_entries(*final(frontier)) == (if !frontier_entries(*old(frontier)).contains_key(pixel)
            || priority_lt(priority, frontier_entries(*old(frontier))[pixel]) {
            frontier_entries(*old(frontier)).insert(pixel, priority)
        } else {
            frontier_entries(*old(frontier))
        }),
{
    frontier.push_increase(pixel, Reverse(priority));
}

/// `PriorityQueue::pop` under `Reverse`: `None` from a frontier that holds
/// nothing; otherwise one of its pixels leaves with its priority, and no
/// pixel of the frontier has a priority that comes before that one. Where
/// several share the least priority, any of them may leave.
#[verifier::external_body]
pub(crate) fn frontier_pop(frontier: &mut Frontier) -> (popped: Option<(Pixel, Priority)>)
    ensures
        popped is None ==> frontier_entries(*old(frontier)) =~= Map::empty()
            && frontier_entries(*final(frontier)) == frontier_entries(*old(frontier)),
        popped matches Some(entry) ==> frontier_entries(*old(frontier)).contains_key(entry.0)
            && frontier_entries(*old(frontier))[entry.0] == entry.1
            && frontier_entries(*final(frontier)) == frontier_entries(*old(frontier)).remove(entry.0),
        popped matches Some(entry) ==> forall|other: Pixel| #[trigger]
            frontier_entries(*old(frontier)).contains_key(other) ==> !priority_lt(
                frontier_entries(*old(frontier))[other],
                entry.1,
            ),
{
    frontier.pop().map(|entry| (entry.0, entry.1.0))
}

/// `HashSetExt::new`: a set that holds nothing.
#[verifier::external_body]
pub(crate) fn visited_new() -> (visited: Visited)
    ensures
        visited@ =~= Set::empty(),
{
    Visited::new()
}

/// `HashSet::insert`: the set holds the pixel, and what it held before.
#[verifier::external_body]
pub(crate) fn visited_insert(visited: &mut Visited, pixel: Pixel)
    ensures
        final(visited)@ == old(visited)@.insert(pixel),
{
    visited.insert(pixel);
}

/// `HashSet::contains`: whether the set holds the pixel.
#[verifier::external_body]
pub(crate) fn visited_contains(visited: &Visited, pixel: Pixel) -> (held: bool)
    ensures
        held == visited@.contains(pixel),
{
    visited.contains(&pixel)
}

} // verus!
