//! The random source that the engines draw from.
//!
//! The generator is [`rand::rngs::StdRng`]; a caller seeds it and hands it to
//! an engine, so a fixed seed gives a fixed game. Nothing here is proved: the
//! contracts below are read off the source of `rand`.

use rand::rngs::StdRng;
use rand::seq::SliceRandom;
use vstd::prelude::*;

verus! {

/// `rand::rngs::StdRng`, a generator that is made from a seed. Its state is
/// opaque here: nothing is said of the values that it will give.
#[verifier::external_type_specification]
#[verifier::external_body]
pub struct ExStdRng(StdRng);

/// `<[T] as SliceRandom>::choose`: `None` for an empty slice, otherwise one of
/// the slice's elements. Which one is left open.
#[verifier::external_body]
pub(crate) fn pick_one<T: Copy>(rng: &mut StdRng, items: &[T]) -> (picked: Option<T>)
    ensures
        picked is Some <==> items@.len() > 0,
        picked matches Some(p) ==> items@.contains(p),
{
    items.choose(rng).copied()
}

/// `<[T] as SliceRandom>::shuffle`: reorders the elements in place by swaps, so
/// the same values are there afterwards, each as often as before.
#[verifier::external_body]
pub(crate) fn shuffle(rng: &mut StdRng, items: &mut Vec<u32>)
    ensures
        final(items)@.to_multiset() == old(items)@.to_multiset(),
{
    items.shuffle(rng);
}

} // verus!
