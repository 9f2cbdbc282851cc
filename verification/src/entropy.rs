//! The random sources that the generators draw from.

use bevy_rand::prelude::WyRand;
use rand_core::RngCore;
use vstd::prelude::*;

verus! {

/// `bevy_rand::prelude::WyRand`, the seedable generator that an entropy
/// component of the engine forks off.
#[verifier::external_type_specification]
#[verifier::external_body]
pub struct ExWyRand(bevy_rand::prelude::WyRand);

/// `rand_core::RngCore::next_u32` on the generator: its next 32 bits. Nothing
/// is claimed of their value.
#[verifier::external_body]
pub(crate) fn next_u32(rng: &mut WyRand) -> (draw: u32) {
    rng.next_u32()
}

/// `fastrand::shuffle` on the four neighbours of a cell. It swaps elements of
/// the slice among themselves, so what comes back holds the same cells, each
/// as often as before, in some order.
#[verifier::external_body]
pub(crate) fn shuffle(cells: &mut [(i32, i32); 4])
    ensures
        final(cells)@.to_multiset() == old(cells)@.to_multiset(),
{
    fastrand::shuffle(cells)
}

} // verus!
