//! Entities and the handle used to build them up one change at a time.
use vstd::prelude::*;

use crate::component::{opt_deref, recover_opt, Component};
use crate::world::{World, WorldModel};

verus! {

/// A handle to one row of every component column of a world.
#[derive(Clone, Copy, PartialEq, Eq, Debug, Structural)]
pub struct Entity(pub(crate) usize);

impl View for Entity {
    type V = nat;

    open(crate) spec fn view(&self) -> nat {
        self.0 as nat
    }
}

impl Entity {
    /// The entity at row `index`.
    pub fn from_index(index: usize) -> (e: Self)
        ensures
            e@ == index as nat,
    {
        Entity(index)
    }

    /// The row index of this entity.
    pub fn index(self) -> (r: usize)
        ensures
            r as nat == self@,
    {
        self.0
    }

    /// Stores `component` at this entity's row of `world`; see
    /// `World::add_component`.
    pub fn insert<T: Component<V>, V, S>(self, component: T, world: &mut World<V, S>) -> (r: Self)
        requires
            old(world).wf(),
            self@ < old(world)@.rows,
        ensures
            r == self,
            final(world).wf(),
            final(world)@ == old(world)@.with_slot(T::type_key(), self@, Some(component.erase())),
    {
        world.add_component(self, component);
        self
    }

    /// Empties this entity's slot for `T` in `world`; see
    /// `World::remove_component`.
    pub fn remove<T: Component<V>, V, S>(self, world: &mut World<V, S>) -> (r: Self)
        requires
            old(world).wf(),
            old(world)@.components.contains_key(T::type_key()) ==> self@ < old(world)@.rows,
        ensures
            r == self,
            final(world).wf(),
            final(world)@ == if old(world)@.components.contains_key(T::type_key()) {
                old(world)@.with_slot(T::type_key(), self@, None)
            } else {
                old(world)@.with_column(T::type_key())
            },
    {
        world.remove_component::<T>(self);
        self
    }
}

/// One entity together with exclusive access to its world, for chained
/// changes to that entity.
pub struct EntityWorld<'a, V, S> {
    pub world: &'a mut World<V, S>,
    pub entity: Entity,
}

impl<'a, V, S> EntityWorld<'a, V, S> {
    /// The borrowed world is well formed and holds the entity's row.
    pub open spec fn inv(&self) -> bool {
        &&& self.world.wf()
        &&& self.entity@ < (*self.world)@.rows
    }

    /// Stores `component` for this entity.
    pub fn insert<T: Component<V>>(self, component: T) -> (r: Self)
        requires
            self.inv(),
        ensures
            r.inv(),
            r.entity == self.entity,
            (*r.world)@ == (*old(self.world))@.with_slot(
                T::type_key(),
                self.entity@,
                Some(component.erase()),
            ),
            *final(r.world) == *final(self.world),
    {
        let EntityWorld { world, entity } = self;
        world.add_component(entity, component);
        proof {
            world.lemma_wf_aligned();
        }
        EntityWorld { world, entity }
    }

    /// Empties this entity's slot for `T`.
    pub fn remove<T: Component<V>>(self) -> (r: Self)
        requires
            self.inv(),
        ensures
            r.inv(),
            r.entity == self.entity,
            (*r.world)@ == if (*old(self.world))@.components.contains_key(T::type_key()) {
                (*old(self.world))@.with_slot(T::type_key(), self.entity@, None)
            } else {
                (*old(self.world))@.with_column(T::type_key())
            },
            *final(r.world) == *final(self.world),
    {
        let EntityWorld { world, entity } = self;
        world.remove_component::<T>(entity);
        EntityWorld { world, entity }
    }

    /// The entity; the handle is released with the world unchanged.
    pub fn id(self) -> (r: Entity)
        ensures
            r == self.entity,
            *final(self.world) == *old(self.world),
    {
        self.entity
    }

    /// Empties the entity's row in every column and releases the handle.
    pub fn despawn(self)
        requires
            self.inv(),
        ensures
            final(self.world).wf(),
            (*final(self.world))@ == (*old(self.world))@.despawned(self.entity@),
    {
        let EntityWorld { world, entity } = self;
        world.despawn(entity);
    }

    /// This entity's value of type `T`, if it has one.
    pub fn get_component<T: Component<V>>(&self) -> (r: Option<&T>)
        requires
            self.inv(),
        ensures
            opt_deref(r) == recover_opt::<V, T>(
                (*old(self.world))@.slot(T::type_key(), self.entity@),
            ),
    {
        self.world.get_component::<T>(self.entity)
    }

    /// This entity's value of type `T`; it must have one.
    pub fn component<T: Component<V>>(&self) -> (r: &T)
        requires
            self.inv(),
            recover_opt::<V, T>((*self.world)@.slot(T::type_key(), self.entity@)) is Some,
        ensures
            recover_opt::<V, T>((*old(self.world))@.slot(T::type_key(), self.entity@)) == Some(
                *r,
            ),
    {
        self.get_component::<T>().unwrap()
    }

    /// Mutable form of `get_component`.
    pub fn get_component_mut<T: Component<V>>(&mut self) -> (r: Option<&mut T>)
        requires
            old(self).inv(),
        ensures
            final(self).inv(),
            final(self).entity == old(self).entity,
            *final(final(self).world) == *final(old(self).world),
            match r {
                Some(c) => recover_opt::<V, T>(
                    (*old(self).world)@.slot(T::type_key(), old(self).entity@),
                ) == Some(*c) && (*final(self).world)@ == (*old(self).world)@.with_slot(
                    T::type_key(),
                    old(self).entity@,
                    Some((*final(c)).erase()),
                ),
                None => recover_opt::<V, T>(
                    (*old(self).world)@.slot(T::type_key(), old(self).entity@),
                ) is None && (*final(self).world)@ == (*old(self).world)@,
            },
    {
        self.world.get_component_mut::<T>(self.entity)
    }

    /// Mutable form of `component`.
    pub fn component_mut<T: Component<V>>(&mut self) -> (r: &mut T)
        requires
            old(self).inv(),
            recover_opt::<V, T>((*old(self).world)@.slot(T::type_key(), old(self).entity@)) is Some,
        ensures
            final(self).inv(),
            final(self).entity == old(self).entity,
            *final(final(self).world) == *final(old(self).world),
            recover_opt::<V, T>((*old(self).world)@.slot(T::type_key(), old(self).entity@)) == Some(
                *r,
            ),
            (*final(self).world)@ == (*old(self).world)@.with_slot(
                T::type_key(),
                old(self).entity@,
                Some((*final(r)).erase()),
            ),
    {
        self.get_component_mut::<T>().unwrap()
    }
}

} // verus!
