//! The policy of spawning: an object that has reached the end of its life is
//! kept for reuse, and a new object is built only where none is kept.

use crate::object_pool::{rest, taken, ObjectPool, PoolMarker};
use bevy::ecs::entity::Entity;
use vstd::prelude::*;

verus! {

/// What the caller of [`spawn`] has to do.
#[derive(Clone, Copy, Debug, PartialEq, Eq)]
pub enum Spawn {
    /// Make this pooled object live again: set its position and velocity,
    /// show it and enable its physics.
    Reuse(Entity),
    /// Nothing is pooled: construct a new object.
    Construct,
}

/// Decides where the next live object of kind `T` comes from. While the pool
/// has a handle, the one released last leaves it for reuse; an empty pool
/// stays as it is and a new object is asked for. Spawning never fails, and
/// the pool does not limit how many objects are live.
pub fn spawn<T: PoolMarker>(pool: &mut ObjectPool<T>) -> (action: Spawn)
    ensures
        action == match taken(old(pool)@) {
            Some(h) => Spawn::Reuse(h),
            None => Spawn::Construct,
        },
        final(pool)@ == rest(old(pool)@),
        old(pool).wf() ==> final(pool).wf(),
        old(pool).wf() ==> (action matches Spawn::Reuse(h) ==> !final(pool)@.contains(h)),
{
    if pool.is_empty() {
        Spawn::Construct
    } else {
        match pool.get() {
            Some(h) => Spawn::Reuse(h),
            None => Spawn::Construct,
        }
    }
}

/// Keeps an object whose life has ended for reuse. The caller has hidden it
/// and disabled its physics, and it is not in the pool already.
pub fn release_to_pool<T: PoolMarker>(pool: &mut ObjectPool<T>, h: Entity)
    requires
        old(pool).wf(),
        !old(pool)@.contains(h),
    ensures
        final(pool)@ == old(pool)@.push(h),
        final(pool).wf(),
{
    pool.put(h);
}

} // verus!
