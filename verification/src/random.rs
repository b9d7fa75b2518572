//! Chance, as the search uses it. Nothing in this file is proved: each
//! function states what holds of every outcome of the call it makes.

use rand::seq::SliceRandom;
use rand::thread_rng;
use vstd::prelude::*;

verus! {

/// `SliceRandom::shuffle` on the items, with the generator of the thread. It
/// exchanges items among themselves, so the same items are there afterwards,
/// each as often as before; in which order is left open.
#[verifier::external_body]
pub(crate) fn shuffle<T>(items: &mut Vec<T>)
    ensures
        final(items)@.to_multiset() == old(items)@.to_multiset(),
{
    items.shuffle(&mut thread_rng());
}

/// `SliceRandom::choose` on the items, with the generator of the thread: one
/// of the items, or nothing where there is none; which one is left open.
#[verifier::external_body]
pub(crate) fn pick_one<T: Copy>(items: &Vec<T>) -> (picked: Option<T>)
    ensures
        items.len() == 0 ==> picked is None,
        items.len() > 0 ==> picked is Some && items@.contains(picked.unwrap()),
{
    items.choose(&mut thread_rng()).copied()
}

} // verus!
