//! The random choices of the engine, taken from the `rand` crate. Nothing in this file is
//! proved: each item states what the rest of the library relies on.

use rand::seq::SliceRandom;
use vstd::prelude::*;

verus! {

/// `rand::rngs::ThreadRng`, the handle of the generator that each thread owns. Its state is
/// hidden: no contract speaks of the numbers it will give.
#[verifier::external_type_specification]
#[verifier::external_body]
pub struct ExThreadRng(rand::rngs::ThreadRng);

/// `rand::thread_rng` hands out the handle of the calling thread's generator, which the
/// operating system seeds on first use. Nothing is claimed of the handle.
pub assume_specification[ rand::thread_rng ]() -> (rng: rand::rngs::ThreadRng)
;

/// `SliceRandom::shuffle` on the items of a vector. It reorders the items in place by
/// swapping pairs of them, so the vector holds afterwards what it held before, each item as
/// often as before; nothing is claimed of the order.
#[verifier::external_body]
pub(crate) fn shuffle_items<T>(items: &mut Vec<T>, rng: &mut rand::rngs::ThreadRng)
    ensures
        final(items)@.to_multiset() == old(items)@.to_multiset(),
{
    items.shuffle(rng);
}

/// `SliceRandom::choose` on the items of a vector. It gives `None` for an empty vector and
/// otherwise a reference to one of the items; nothing is claimed of which one.
#[verifier::external_body]
pub(crate) fn pick_one<'a, T>(items: &'a Vec<T>, rng: &mut rand::rngs::ThreadRng) -> (picked: Option<
    &'a T,
>)
    ensures
        match picked {
            Some(item) => items@.contains(*item),
            None => items@.len() == 0,
        },
{
    items.choose(rng)
}

} // verus!
