//! A last-in-first-out pool of inactive entities of one kind.

use bevy::ecs::entity::Entity;
use std::marker::PhantomData;
use vstd::prelude::*;

verus! {

/// `bevy::ecs::entity::Entity`, the engine's handle of a simulation object.
/// The pool stores and returns handles and never looks inside one.
#[verifier::external_type_specification]
#[verifier::external_body]
pub struct ExEntity(bevy::ecs::entity::Entity);

/// The handle that a pool hands out next: the one released last.
pub open spec fn taken(pool: Seq<Entity>) -> Option<Entity> {
    if pool.len() == 0 {
        None
    } else {
        Some(pool.last())
    }
}

/// The pool after it has handed out a handle, if it had one.
pub open spec fn rest(pool: Seq<Entity>) -> Seq<Entity> {
    if pool.len() == 0 {
        pool
    } else {
        pool.drop_last()
    }
}

/// The handles that `n` acquisitions in a row yield, in their order, and the
/// pool that they leave.
pub open spec fn drained(pool: Seq<Entity>, n: nat) -> (Seq<Entity>, Seq<Entity>)
    decreases n,
{
    if n == 0 {
        (Seq::empty(), pool)
    } else {
        let (yielded, left) = drained(pool, (n - 1) as nat);
        match taken(left) {
            Some(h) => (yielded.push(h), rest(left)),
            None => (yielded, left),
        }
    }
}

/// The pool after the handles `back` have been released to it, in their order.
pub open spec fn refilled(pool: Seq<Entity>, back: Seq<Entity>) -> Seq<Entity>
    decreases back.len(),
{
    if back.len() == 0 {
        pool
    } else {
        refilled(pool, back.drop_last()).push(back.last())
    }
}

/// Tags the kind of object that a pool serves.
pub trait PoolMarker: Send + Sync + 'static {}

/// The inactive entities of kind `T`, most recently released last.
pub struct ObjectPool<T: PoolMarker> {
    pool: Vec<Entity>,
    _marker: PhantomData<T>,
}

impl<T: PoolMarker> View for ObjectPool<T> {
    type V = Seq<Entity>;

    /// The pooled handles in the order of their release.
    closed spec fn view(&self) -> Seq<Entity> {
        self.pool@
    }
}

impl<T: PoolMarker> ObjectPool<T> {
    /// No handle is pooled twice.
    pub open spec fn wf(&self) -> bool {
        self@.no_duplicates()
    }

    /// An empty pool.
    pub fn new() -> (p: Self)
        ensures
            p@ == Seq::<Entity>::empty(),
            p.wf(),
    {
        Self { pool: Vec::new(), _marker: PhantomData }
    }

    /// Takes the most recently released handle out of the pool, if there is one.
    /// Reactivating the object is left to the caller.
    pub fn get(&mut self) -> (item: Option<Entity>)
        ensures
            item == taken(old(self)@),
            final(self)@ == rest(old(self)@),
            old(self).wf() ==> final(self).wf(),
            old(self).wf() ==> (item matches Some(h) ==> !final(self)@.contains(h)),
    {
        self.pool.pop()
    }

    /// Puts a handle on top of the pool. The caller has deactivated the object
    /// and does not release a handle that is already pooled.
    pub fn put(&mut self, item: Entity)
        requires
            old(self).wf(),
            !old(self)@.contains(item),
        ensures
            final(self)@ == old(self)@.push(item),
            final(self).wf(),
    {
        self.pool.push(item);
    }

    /// Whether no handle is pooled.
    pub fn is_empty(&self) -> (b: bool)
        ensures
            b == (self@.len() == 0),
    {
        self.pool.is_empty()
    }
}

/// Whether the pool of kind `T` has nothing to hand out.
pub fn pool_empty<T: PoolMarker>(pool: &ObjectPool<T>) -> (b: bool)
    ensures
        b == (pool@.len() == 0),
{
    pool.is_empty()
}

/// Last in, first out: when `a` and then `b` have been released, the pool
/// hands out `b`, then `a`, and is then as it was before.
pub proof fn lemma_last_in_first_out(pool: Seq<Entity>, a: Entity, b: Entity)
    ensures
        taken(pool.push(a).push(b)) == Some(b),
        taken(rest(pool.push(a).push(b))) == Some(a),
        rest(rest(pool.push(a).push(b))) == pool,
{
    assert(pool.push(a).push(b).drop_last() == pool.push(a));
}

/// Round trip: a pool of `k` different handles yields them all in `k`
/// acquisitions, each once, and then has nothing more to give. When all of
/// them have been released again the pool is not empty (unless `k` is 0), and
/// `k` acquisitions are to be had of it again, and no more.
pub proof fn lemma_round_trip(pool: Seq<Entity>)
    requires
        pool.no_duplicates(),
    ensures
        ({
            let k = pool.len();
            let (yielded, left) = drained(pool, k);
            let back = refilled(left, yielded);
            &&& yielded.len() == k
            &&& yielded.no_duplicates()
            &&& yielded.to_set() == pool.to_set()
            &&& taken(left) is None
            &&& back.len() == k
            &&& back.no_duplicates()
            &&& drained(back, k).0.len() == k
            &&& taken(drained(back, k).1) is None
        }),
{
    let k = pool.len();
    lemma_drained(pool, k);
    let (yielded, left) = drained(pool, k);
    assert(pool.skip(0) == pool);
    lemma_reverse_keeps(pool);
    lemma_refilled(left, yielded);
    let back = refilled(left, yielded);
    assert(back == pool.reverse());
    lemma_drained(back, k);
}

/// The first `n` acquisitions yield the last `n` handles of the pool, the
/// last one first, and leave the others.
proof fn lemma_drained(pool: Seq<Entity>, n: nat)
    requires
        n <= pool.len(),
    ensures
        drained(pool, n) == (pool.skip(pool.len() - n).reverse(), pool.take(pool.len() - n)),
    decreases n,
{
    if n > 0 {
        lemma_drained(pool, (n - 1) as nat);
    }
}

/// A pool that handles are released to holds them on top, in their order.
proof fn lemma_refilled(pool: Seq<Entity>, back: Seq<Entity>)
    ensures
        refilled(pool, back) == pool + back,
    decreases back.len(),
{
    if back.len() > 0 {
        lemma_refilled(pool, back.drop_last());
    }
}

/// Turning a sequence round keeps its length and its elements, and keeps them
/// different if they were.
proof fn lemma_reverse_keeps(s: Seq<Entity>)
    requires
        s.no_duplicates(),
    ensures
        s.reverse().len() == s.len(),
        s.reverse().no_duplicates(),
        s.reverse().to_set() == s.to_set(),
{
    let r = s.reverse();
    assert forall|h: Entity| r.to_set().contains(h) == s.to_set().contains(h) by {
        if r.contains(h) {
            let i = choose|i: int| 0 <= i < r.len() && r[i] == h;
            assert(s[s.len() - 1 - i] == h);
        }
        if s.contains(h) {
            let i = choose|i: int| 0 <= i < s.len() && s[i] == h;
            assert(r[s.len() - 1 - i] == h);
        }
    }
}

} // verus!
