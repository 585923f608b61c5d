//! The world: a component set together with the entity manager.
use vstd::prelude::*;

use crate::entity::EntityManager;
use crate::query::{FilterFactory, Query};
use crate::set::ComponentSet;

verus! {

/// Component data and entity identities of one simulation.
pub struct World<S: ComponentSet> {
    data: S,
    entities: EntityManager,
}

/// A shared borrow of a world, from which queries are built.
pub struct WorldHandle<'a, S: ComponentSet> {
    data: &'a S,
    entities: &'a EntityManager,
}

impl<S: ComponentSet> World<S> {
    /// The world's entity manager.
    pub closed spec fn manager(&self) -> EntityManager {
        self.entities
    }

    /// The world's component set.
    pub closed spec fn components(&self) -> S {
        self.data
    }

    /// A world over `data` with no entity issued yet.
    pub fn new(data: S) -> (r: World<S>)
        ensures
            r.manager().wf(),
            r.manager().gens().len() == 0,
            r.manager().unused().len() == 0,
            r.components() == data,
    {
        World { data, entities: EntityManager::new() }
    }

    /// The entity manager, for creating and destroying entities.
    pub fn entities_mut(&mut self) -> (r: &mut EntityManager)
        ensures
            *r == old(self).manager(),
            final(self).manager() == *final(r),
            final(self).components() == old(self).components(),
    {
        &mut self.entities
    }

    /// A shared handle for building queries.
    pub fn handle(&self) -> (r: WorldHandle<'_, S>)
        ensures
            r.manager() == self.manager(),
            r.components() == self.components(),
    {
        WorldHandle { data: &self.data, entities: &self.entities }
    }
}

impl<'a, S: ComponentSet> WorldHandle<'a, S> {
    /// The entity manager seen through this handle.
    pub closed spec fn manager(&self) -> EntityManager {
        *self.entities
    }

    /// The component set seen through this handle.
    pub closed spec fn components(&self) -> S {
        *self.data
    }

    /// The entity manager, for liveness checks.
    pub fn entities(&self) -> (r: &'a EntityManager)
        ensures
            *r == self.manager(),
    {
        self.entities
    }

    /// The component set, for locking storages directly.
    pub fn data(&self) -> (r: &'a S)
        ensures
            *r == self.components(),
    {
        self.data
    }

    /// A query with no filter yet, to be extended with `with`.
    pub fn query(&self) -> (r: Query<'a, S, ()>)
        ensures
            r.manager() == self.manager(),
            r.components() == self.components(),
    {
        Query::new(self, ())
    }

    /// A query with one `Has` stage per component type of the tuple `F`.
    pub fn query_of<F: FilterFactory<S, Idx>, Idx>(&self) -> (r: Query<'a, S, F::Filters>)
        ensures
            r.manager() == self.manager(),
            r.components() == self.components(),
            r.filters() == F::filters(),
    {
        Query::new(self, F::create())
    }
}

/// A unit of per-step work over a world.
pub trait System {
    fn process<'a, S: ComponentSet>(&mut self, wh: WorldHandle<'a, S>);
}

} // verus!
