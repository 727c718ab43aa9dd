//! Traits that component types and their per-type managers implement.

use vstd::prelude::*;
use crate::entity::Entity;

verus! {

/// Implemented by every type that can be attached to an entity.
pub trait Component {
    /// A human-readable name for the component type, used in diagnostics.
    fn get_name() -> String where Self: Sized;
}

/// Implemented by handlers that a [`crate::component_system::ComponentSystem`]
/// is created with.
pub trait ComponentHandler<Comp> where Comp: Component, Self: 'static {
    fn new() -> Self where Self: Sized;
}

/// Interface every per-type component manager exposes to the world: the
/// world stores managers of differing component types behind this common
/// surface.
pub trait EcsManager: Sized {
    /// The manager's internal structures agree with one another.
    spec fn inv(&self) -> bool;

    /// The entities currently holding a component of the managed type, in
    /// dense-storage order.
    spec fn entities_view(&self) -> Seq<Entity>;

    /// No access guard is currently held on any component of the managed
    /// type; structural edits are only applied against an idle store.
    spec fn quiescent(&self) -> bool;

    fn new() -> (r: Self)
        ensures
            r.inv(),
            r.entities_view() =~= Seq::<Entity>::empty(),
            r.quiescent(),
    ;

    /// Detaches the managed component from the entity by swap-removal; a
    /// handle without a component attached is a no-op.
    fn remove_component_from_entity(&mut self, entity_id: Entity)
        requires
            old(self).inv(),
            old(self).quiescent(),
        ensures
            final(self).inv(),
            final(self).quiescent(),
            !final(self).entities_view().contains(entity_id),
            !old(self).entities_view().contains(entity_id) ==> final(self).entities_view()
                == old(self).entities_view(),
            old(self).entities_view().contains(entity_id) ==> exists|i: int|
                0 <= i < old(self).entities_view().len() && old(self).entities_view()[i]
                    == entity_id && final(self).entities_view() == old(self).entities_view()
                    .update(i, old(self).entities_view().last()).drop_last(),
    ;

    fn has_component(&self, entity_id: Entity) -> (r: bool)
        requires
            self.inv(),
        ensures
            r == self.entities_view().contains(entity_id),
    ;

    fn get_entities(&self) -> (r: Vec<Entity>)
        requires
            self.inv(),
        ensures
            r@ == self.entities_view(),
    ;
}

} // verus!
