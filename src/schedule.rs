//! Systems: work that a world runs with exclusive access to itself.
//!
//! A system is any value of the application's system type `S`, such as a
//! wrapper around a plain function pointer; it captures no state of its own
//! beyond what it is, and everything it reads or changes goes through the
//! world.
use vstd::prelude::*;

use crate::world::{World, WorldModel};

verus! {

/// A system: work run against the whole world, with exclusive access to it.
pub trait System<V>: Sized + Copy {
    /// What one run of the system may do: the relation between the world
    /// before and after it.
    spec fn effect(&self, before: WorldModel<V, Self>, after: WorldModel<V, Self>) -> bool;

    fn run(&self, world: &mut World<V, Self>)
        requires
            old(world).wf(),
        ensures
            final(world).wf(),
            self.effect(old(world)@, final(world)@),
    ;
}

/// Running `systems` one after another, in order, takes the world from
/// `before` to `after`.
pub open spec fn runs_in_order<V, S: System<V>>(
    systems: Seq<S>,
    before: WorldModel<V, S>,
    after: WorldModel<V, S>,
) -> bool
    decreases systems.len(),
{
    if systems.len() == 0 {
        after == before
    } else {
        exists|mid: WorldModel<V, S>|
            runs_in_order(systems.drop_last(), before, mid) && #[trigger] systems.last().effect(
                mid,
                after,
            )
    }
}

} // verus!
