//! The collider set of the physics engine, as far as the terrain uses it.
//!
//! A collider is known by the two parts of its handle, the position and the
//! generation. What the contracts know of a collider set is which handles it
//! holds, what stands behind each of them, and how many removals it has seen.

use rapier2d::dynamics::{IslandManager, RigidBodySet};
use rapier2d::geometry::{Collider, ColliderHandle, ColliderSet};
use vstd::prelude::*;

verus! {

/// How many colliders a set can hold. A full set doubles its storage, which starts at
/// four places: with 64-bit addresses its places can be counted in 32 bits, as the set
/// does when it looks for a collider, up to `2^31` of them, and with 32-bit addresses
/// the storage can be addressed up to `2^23` of them.
pub open spec fn collider_limit() -> nat {
    if usize::MAX == 0xffff_ffff {
        0x80_0000
    } else {
        0x8000_0000
    }
}

/// How many colliders a set can hold.
pub fn max_colliders() -> (r: usize)
    ensures
        r == collider_limit(),
{
    if usize::MAX == 0xffff_ffff {
        0x80_0000
    } else {
        0x8000_0000
    }
}

/// A collider of the physics engine: its shape, its material and its pose.
#[verifier::external_type_specification]
#[verifier::external_body]
pub struct ExCollider(Collider);

/// The collider set of the physics engine.
#[verifier::external_type_specification]
#[verifier::external_body]
pub struct ExColliderSet(ColliderSet);

/// The rigid bodies of the physics engine.
#[verifier::external_type_specification]
#[verifier::external_body]
pub struct ExRigidBodySet(RigidBodySet);

/// What the physics engine knows of bodies that move together.
#[verifier::external_type_specification]
#[verifier::external_body]
pub struct ExIslandManager(IslandManager);

/// Everything of a collider but the body that it is attached to, its link into the
/// broad phase and its change flags, written out as bytes.
pub uninterp spec fn collider_data(collider: Collider) -> Seq<u8>;

/// The colliders in a set: by handle, the data of the collider, and whether it is
/// attached to a body.
pub uninterp spec fn collider_map(set: ColliderSet) -> Map<(u32, u32), (Seq<u8>, bool)>;

/// The contents of a set without colliders.
pub open spec fn no_colliders() -> Map<(u32, u32), (Seq<u8>, bool)> {
    Map::empty()
}

/// How many colliders were ever removed from a set: the generation that the handle
/// of its next collider gets.
pub uninterp spec fn collider_removals(set: ColliderSet) -> nat;

/// `ColliderSet::new`: the set is empty, and nothing was removed from it.
#[verifier::external_body]
fn new_set() -> (r: ColliderSet)
    ensures
        collider_map(r) == no_colliders(),
        collider_removals(r) == 0,
{
    ColliderSet::new()
}

/// `ColliderSet::len`: the number of colliders in the set.
#[verifier::external_body]
fn count(set: &ColliderSet) -> (r: usize)
    ensures
        r == collider_map(*set).dom().len(),
{
    set.len()
}

/// `ColliderSet::insert`, with the handle in its two parts: the collider joins the
/// set, attached to no body, under a handle that the set did not hold.
#[verifier::external_body]
fn insert_collider(set: &mut ColliderSet, collider: Collider) -> (r: (u32, u32))
    requires
        collider_map(*old(set)).dom().len() < collider_limit(),
    ensures
        !collider_map(*old(set)).dom().contains(r),
        collider_map(*final(set)) == collider_map(*old(set)).insert(r, (collider_data(collider), false)),
        collider_removals(*final(set)) == collider_removals(*old(set)),
{
    set.insert(collider).into_raw_parts()
}

/// `ColliderSet::remove`: the collider with this handle, if the set holds one,
/// leaves the set and is handed back. The bodies change only if it was attached to
/// one of them, the islands only if that body is to be woken up. What becomes of
/// bodies and islands then is not said.
#[verifier::external_body]
fn remove_collider(
    set: &mut ColliderSet,
    handle: (u32, u32),
    islands: &mut IslandManager,
    bodies: &mut RigidBodySet,
    wake_up: bool,
) -> (r: Option<Collider>)
    requires
        collider_map(*old(set)).dom().contains(handle) ==> collider_removals(*old(set)) < u32::MAX,
    ensures
        r is Some <==> collider_map(*old(set)).dom().contains(handle),
        r matches Some(c) ==> collider_data(c) == collider_map(*old(set))[handle].0,
        collider_map(*final(set)) == collider_map(*old(set)).remove(handle),
        collider_removals(*final(set)) == collider_removals(*old(set)) + (if r is Some {
            1nat
        } else {
            0nat
        }),
        !(r is Some && collider_map(*old(set))[handle].1) ==> *final(bodies) == *old(bodies),
        !(r is Some && collider_map(*old(set))[handle].1 && wake_up) ==> *final(islands) == *old(islands),
{
    set.remove(ColliderHandle::from_raw_parts(handle.0, handle.1), islands, bodies, wake_up)
}

/// The colliders of the world, with a count of the removals.
pub struct ColliderStore {
    pub set: ColliderSet,
    pub removals: u32,
}

impl View for ColliderStore {
    type V = Map<(u32, u32), (Seq<u8>, bool)>;

    /// The colliders in the store.
    open spec fn view(&self) -> Map<(u32, u32), (Seq<u8>, bool)> {
        collider_map(self.set)
    }
}

impl ColliderStore {
    /// The colliders can be counted, and the count of the removals is not too low.
    pub open spec fn wf(&self) -> bool {
        self@.dom().finite() && collider_removals(self.set) <= self.removals
    }

    /// Whether the store can take `n` more colliders and lose `m`.
    pub open spec fn has_room_for(&self, n: int, m: int) -> bool {
        self@.dom().len() + n <= collider_limit() && self.removals + m <= u32::MAX
    }

    /// A store without colliders.
    pub fn new() -> (r: Self)
        ensures
            r.wf(),
            r@ == no_colliders(),
            forall|h: (u32, u32)| !(#[trigger] r@.dom().contains(h)),
            r.removals == 0,
    {
        ColliderStore { set: new_set(), removals: 0 }
    }

    /// The number of colliders.
    pub fn len(&self) -> (r: usize)
        ensures
            r == self@.dom().len(),
    {
        count(&self.set)
    }

    /// Whether the store can take `n` more colliders and lose `m`.
    pub fn has_room(&self, n: usize, m: usize) -> (r: bool)
        ensures
            r == self.has_room_for(n as int, m as int),
            r <==> self@.dom().len() + n <= collider_limit() && self.removals + m <= 0xffff_ffff,
    {
        let len: usize = self.len();
        let max: usize = max_colliders();
        len <= max && n <= max - len && m as u64 <= (u32::MAX - self.removals) as u64
    }

    /// Adds a collider, attached to no body.
    pub fn insert(&mut self, collider: Collider) -> (r: (u32, u32))
        requires
            old(self).wf(),
            old(self).has_room_for(1, 0),
        ensures
            final(self).wf(),
            !old(self)@.dom().contains(r),
            final(self)@ == old(self)@.insert(r, (collider_data(collider), false)),
            final(self)@.dom().len() == old(self)@.dom().len() + 1,
            final(self).removals == old(self).removals,
    {
        insert_collider(&mut self.set, collider)
    }

    /// Takes out the collider with this handle, if there is one, and wakes nothing
    /// up.
    pub fn remove(
        &mut self,
        handle: (u32, u32),
        islands: &mut IslandManager,
        bodies: &mut RigidBodySet,
    ) -> (r: Option<Collider>)
        requires
            old(self).wf(),
            old(self)@.dom().contains(handle) ==> old(self).removals < u32::MAX,
        ensures
            final(self).wf(),
            r is Some <==> old(self)@.dom().contains(handle),
            r matches Some(c) ==> collider_data(c) == old(self)@[handle].0,
            final(self)@ == old(self)@.remove(handle),
            old(self)@.dom().len() == final(self)@.dom().len() + (if r is Some { 1nat } else { 0nat }),
            final(self).removals == old(self).removals + (if r is Some { 1int } else { 0int }),
            !(r is Some && old(self)@[handle].1) ==> *final(bodies) == *old(bodies),
            *final(islands) == *old(islands),
    {
        let r = remove_collider(&mut self.set, handle, islands, bodies, false);
        if r.is_some() {
            self.removals = self.removals + 1;
        }
        r
    }
}

/// At the limit a set cannot double its storage once more: with 64-bit addresses the
/// places would be too many for 32 bits, and with 32-bit addresses, at 128 bytes or
/// more for a place, the storage would be half of what can be addressed or more.
pub proof fn law_limit_is_the_last_doubling()
    ensures
        usize::MAX > 0xffff_ffff ==> 2 * collider_limit() == 0x1_0000_0000,
        usize::MAX == 0xffff_ffff ==> 2 * collider_limit() * 128 == 0x8000_0000,
{
}

} // verus!
