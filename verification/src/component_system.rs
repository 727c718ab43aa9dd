//! Dense per-type component storage keyed by plain entity ids: a contiguous
//! array of values, the owning ids in the same order, and an id-to-index
//! lookup kept in agreement with both.

use vstd::prelude::*;
use std::collections::HashMap;
use crate::component::{Component, ComponentHandler};
use crate::entity::EntityId;
use crate::tables::type_id_of;

verus! {

broadcast use vstd::std_specs::hash::group_hash_axioms;

/// Storage and lookup for every component of type `Comp`, at most one per
/// entity.
pub struct ComponentSystem<Comp> where Comp: Component {
    system_id: core::any::TypeId,
    /// Contiguous array of component values.
    components: Vec<Comp>,
    /// Owner of each component, in the same order as `components`.
    entity_ids: Vec<EntityId>,
    /// Entity-to-index lookup into the dense arrays.
    entity_component_map: HashMap<EntityId, usize>,
}

impl<Comp> ComponentSystem<Comp> where Comp: Component + 'static {
    pub closed spec fn components_view(self) -> Seq<Comp> {
        self.components@
    }

    pub closed spec fn entity_seq(self) -> Seq<EntityId> {
        self.entity_ids@
    }

    pub closed spec fn lookup(self) -> Map<EntityId, usize> {
        self.entity_component_map@
    }

    pub closed spec fn id_spec(self) -> core::any::TypeId {
        self.system_id
    }

    /// The dense arrays and the lookup table agree.
    pub open spec fn wf(self) -> bool {
        &&& self.components_view().len() == self.entity_seq().len()
        &&& forall|i: int|
            0 <= i < self.entity_seq().len() ==> self.lookup().contains_key(
                #[trigger] self.entity_seq()[i],
            ) && self.lookup()[self.entity_seq()[i]] == i
        &&& forall|k: EntityId|
            #[trigger] self.lookup().contains_key(k) ==> self.lookup()[k]
                < self.entity_seq().len() && self.entity_seq()[self.lookup()[k] as int] == k
    }

    /// Whether the entity currently holds a component of this type.
    pub open spec fn has(self, e: EntityId) -> bool {
        self.lookup().contains_key(e)
    }

    /// The component value currently attached to the entity.
    pub open spec fn component_at(self, e: EntityId) -> Comp {
        self.components_view()[self.lookup()[e] as int]
    }

    /// The three structures are exactly as before.
    pub open spec fn unchanged(pre: Self, post: Self) -> bool {
        &&& post.components_view() == pre.components_view()
        &&& post.entity_seq() == pre.entity_seq()
        &&& post.lookup() == pre.lookup()
    }

    /// Transition relation of [`Self::add_component_to_entity`].
    pub open spec fn attach_post(pre: Self, post: Self, e: EntityId, c: Comp) -> bool {
        if pre.has(e) {
            Self::unchanged(pre, post)
        } else {
            &&& post.components_view() == pre.components_view().push(c)
            &&& post.entity_seq() == pre.entity_seq().push(e)
            &&& post.lookup() == pre.lookup().insert(e, pre.entity_seq().len() as usize)
        }
    }

    /// Transition relation of [`Self::remove_component_from_entity`]: the
    /// dense slot is swapped with the last one and dropped, and the lookup
    /// entry of the value that moved is repaired.
    pub open spec fn detach_post(pre: Self, post: Self, e: EntityId) -> bool {
        if pre.has(e) {
            let i = pre.lookup()[e] as int;
            &&& post.components_view() == pre.components_view().update(
                i,
                pre.components_view().last(),
            ).drop_last()
            &&& post.entity_seq() == pre.entity_seq().update(i, pre.entity_seq().last())
                .drop_last()
            &&& post.lookup() == if i == pre.entity_seq().len() - 1 {
                pre.lookup().remove(e)
            } else {
                pre.lookup().insert(pre.entity_seq().last(), i as usize).remove(e)
            }
        } else {
            Self::unchanged(pre, post)
        }
    }

    /// Creates an empty store for the component type.
    pub fn new<Handler>() -> (r: Self) where Handler: ComponentHandler<Comp>
        ensures
            r.wf(),
            r.components_view() =~= Seq::<Comp>::empty(),
            r.entity_seq() =~= Seq::<EntityId>::empty(),
            r.lookup() =~= Map::<EntityId, usize>::empty(),
    {
        ComponentSystem {
            system_id: type_id_of::<Self>(),
            components: Vec::new(),
            entity_ids: Vec::new(),
            entity_component_map: HashMap::new(),
        }
    }

    /// Attaches a component to the entity; if the entity already holds one
    /// of this type, nothing changes.
    pub fn add_component_to_entity(&mut self, entity_id: EntityId, component: Comp)
        requires
            old(self).wf(),
        ensures
            final(self).wf(),
            final(self).has(entity_id),
            Self::attach_post(*old(self), *final(self), entity_id, component),
            !old(self).has(entity_id) ==> final(self).component_at(entity_id) == component,
            forall|k: EntityId| #[trigger]
                old(self).has(k) ==> final(self).has(k) && final(self).component_at(k)
                    == old(self).component_at(k),
    {
        if self.entity_component_map.contains_key(&entity_id) {
            return;
        }
        let component_index = self.components.len();
        self.components.push(component);
        self.entity_ids.push(entity_id);
        self.entity_component_map.insert(entity_id, component_index);
        proof {
            let pre = *old(self);
            assert forall|i: int|
                0 <= i < self.entity_seq().len() implies self.lookup().contains_key(
                #[trigger] self.entity_seq()[i],
            ) && self.lookup()[self.entity_seq()[i]] == i by {
                if i < pre.entity_seq().len() {
                    assert(self.entity_seq()[i] == pre.entity_seq()[i]);
                }
            }
            assert forall|k: EntityId| #[trigger]
                self.lookup().contains_key(k) implies self.lookup()[k] < self.entity_seq().len()
                && self.entity_seq()[self.lookup()[k] as int] == k by {
                if k != entity_id {
                    assert(pre.lookup().contains_key(k));
                    let j = pre.lookup()[k] as int;
                    assert(self.entity_seq()[j] == pre.entity_seq()[j]);
                }
            }
        }
    }

    /// Detaches the entity's component by swap-removal, repairing the lookup
    /// entry of the value that moved; absent components are a no-op.
    pub fn remove_component_from_entity(&mut self, entity_id: EntityId)
        requires
            old(self).wf(),
        ensures
            final(self).wf(),
            !final(self).has(entity_id),
            Self::detach_post(*old(self), *final(self), entity_id),
            forall|k: EntityId|
                #[trigger] final(self).has(k) <==> (old(self).has(k) && k != entity_id),
            forall|k: EntityId|
                old(self).has(k) && k != entity_id ==> final(self).component_at(k)
                    == old(self).component_at(k),
    {
        if !self.entity_component_map.contains_key(&entity_id) {
            return;
        }
        let components_length = self.components.len();
        let component_index = *self.entity_component_map.get(&entity_id).unwrap();
        proof {
            assert(self.lookup().contains_key(entity_id));
            assert(component_index == self.lookup()[entity_id]);
            assert(component_index < components_length);
        }
        self.components.swap_remove(component_index);
        self.entity_ids.swap_remove(component_index);
        if component_index != components_length - 1 {
            let moved = self.entity_ids[component_index];
            proof {
                let pre = *old(self);
                assert(moved == pre.entity_seq().last());
                assert(pre.lookup()[moved] == components_length - 1);
                assert(moved != entity_id);
            }
            self.entity_component_map.insert(moved, component_index);
        }
        self.entity_component_map.remove(&entity_id);
        proof {
            let pre = *old(self);
            let i = pre.lookup()[entity_id] as int;
            let n = pre.entity_seq().len() as int;
            assert(self.entity_seq() == pre.entity_seq().update(i, pre.entity_seq().last())
                .drop_last());
            assert forall|i2: int|
                0 <= i2 < self.entity_seq().len() implies self.lookup().contains_key(
                #[trigger] self.entity_seq()[i2],
            ) && self.lookup()[self.entity_seq()[i2]] == i2 by {
                let k = self.entity_seq()[i2];
                if i2 == i && i < n - 1 {
                    assert(k == pre.entity_seq().last());
                } else {
                    assert(k == pre.entity_seq()[i2]);
                    assert(pre.lookup()[k] == i2);
                    assert(k != entity_id);
                    assert(k != pre.entity_seq().last() || i2 == n - 1);
                }
            }
            assert forall|k: EntityId| #[trigger]
                self.lookup().contains_key(k) implies self.lookup()[k] < self.entity_seq().len()
                && self.entity_seq()[self.lookup()[k] as int] == k by {
                assert(k != entity_id);
                assert(pre.lookup().contains_key(k));
                if i < n - 1 && k == pre.entity_seq().last() {
                    assert(self.lookup()[k] == i);
                } else {
                    assert(self.lookup()[k] == pre.lookup()[k]);
                    assert(pre.lookup()[k] != i);
                    assert(pre.lookup()[k] != n - 1);
                }
            }
            assert forall|k: EntityId|
                pre.has(k) && k != entity_id implies self.component_at(k) == pre.component_at(
                k,
            ) by {
                if i < n - 1 && k == pre.entity_seq().last() {
                    assert(self.lookup()[k] == i);
                    assert(self.components_view()[i] == pre.components_view().last());
                } else {
                    assert(pre.lookup()[k] != i && pre.lookup()[k] != n - 1);
                }
            }
        }
    }

    /// Whether the entity currently holds a component of this type.
    pub fn has_component(&self, entity_id: EntityId) -> (r: bool)
        requires
            self.wf(),
        ensures
            r == self.has(entity_id),
    {
        self.entity_component_map.contains_key(&entity_id)
    }

    /// Read access to the component attached to the entity.
    pub fn borrow_component(&self, entity_id: EntityId) -> (r: &Comp)
        requires
            self.wf(),
            self.has(entity_id),
        ensures
            *r == self.component_at(entity_id),
    {
        let idx = *self.entity_component_map.get(&entity_id).unwrap();
        &self.components[idx]
    }

    /// Exclusive access to the component attached to the entity.
    pub fn borrow_component_mut(&mut self, entity_id: EntityId) -> (r: &mut Comp)
        requires
            old(self).wf(),
            old(self).has(entity_id),
        ensures
            *r == old(self).component_at(entity_id),
            final(self).wf(),
            final(self).entity_seq() == old(self).entity_seq(),
            final(self).lookup() == old(self).lookup(),
            final(self).components_view() == old(self).components_view().update(
                old(self).lookup()[entity_id] as int,
                *final(r),
            ),
    {
        let idx = *self.entity_component_map.get(&entity_id).unwrap();
        &mut self.components[idx]
    }

    /// The identity recorded for this store at construction.
    pub fn get_system_id(&self) -> (r: core::any::TypeId)
        ensures
            r == self.id_spec(),
    {
        self.system_id.clone()
    }

    /// The identity of the component type this store manages.
    pub fn get_component_id() -> core::any::TypeId {
        type_id_of::<Comp>()
    }
}

/// Law: attaching a fresh component and then reading it back yields the
/// attached value, under any prior interleaving of attaches and detaches
/// that left the store well formed.
pub proof fn lemma_attach_then_read<Comp: Component + 'static>(
    pre: ComponentSystem<Comp>,
    post: ComponentSystem<Comp>,
    e: EntityId,
    c: Comp,
)
    requires
        pre.wf(),
        pre.entity_seq().len() <= usize::MAX,
        !pre.has(e),
        ComponentSystem::<Comp>::attach_post(pre, post, e, c),
    ensures
        post.has(e),
        post.component_at(e) == c,
{
    assert(post.lookup()[e] == pre.entity_seq().len() as usize);
    assert(post.components_view()[pre.components_view().len() as int] == c);
}

/// Law: after a detach the store no longer reports the component, while
/// every other entity's component is untouched.
pub proof fn lemma_detach_then_absent<Comp: Component + 'static>(
    pre: ComponentSystem<Comp>,
    post: ComponentSystem<Comp>,
    e: EntityId,
)
    requires
        pre.wf(),
        ComponentSystem::<Comp>::detach_post(pre, post, e),
    ensures
        !post.has(e),
{
    if pre.has(e) {
        let i = pre.lookup()[e] as int;
        if i == pre.entity_seq().len() - 1 {
            assert(post.lookup() == pre.lookup().remove(e));
        } else {
            assert(post.lookup() == pre.lookup().insert(pre.entity_seq().last(), i as usize)
                .remove(e));
        }
    }
}

/// Sample component used by the crate's tests.
pub struct TestComponent {
    pub i: u32,
}

impl Component for TestComponent {
    fn get_name() -> (r: String) {
        "TestComponent".to_owned()
    }
}

/// Sample handler used by the crate's tests.
pub struct TestSystemHandler;

impl ComponentHandler<TestComponent> for TestSystemHandler {
    fn new() -> (r: Self) {
        TestSystemHandler {  }
    }
}

/// Sample component with a pairwise interaction, as the integration
/// scenarios use.
pub struct Collider {
    pub member: i32,
}

impl Component for Collider {
    fn get_name() -> (r: String) {
        "Collider".to_owned()
    }
}

impl Collider {
    /// Reports a collision between the two colliders; this sample detector
    /// reports every pair as colliding.
    pub fn check_collision(&self, b: &Collider) -> (r: bool)
        ensures
            r,
    {
        true
    }
}

} // verus!
