//! Per-type component storage with guarded borrowing: dense value and owner
//! arrays, a packed-key lookup table, and a per-slot lock state that backs
//! non-blocking read/write guards.

use vstd::prelude::*;
use crate::component::{Component, EcsManager};
use crate::entity::{lemma_entity_bits_injective, Entity};
use crate::tables::{index_table_contents, IndexTable};

verus! {

/// Guard accounting for one dense slot: any number of readers, or one
/// writer, never both.
pub struct LockState {
    pub readers: usize,
    pub writer: bool,
}

impl LockState {
    pub open spec fn free(self) -> bool {
        self.readers == 0 && !self.writer
    }
}

/// Receipt for a held read guard on one entity's component.
pub struct ComponentHandle {
    pub entity_id: Entity,
}

/// Receipt for a held write guard on one entity's component.
pub struct MutComponentHandle {
    pub entity_id: Entity,
}

/// Storage, lookup and guard state for every component of type `Comp`, at
/// most one per entity.
pub struct ComponentManager<Comp> where Comp: Component {
    /// Contiguous array of component values.
    components: Vec<Comp>,
    /// Owner of each component, in the same order as `components`.
    entity_ids: Vec<Entity>,
    /// Packed-entity-key-to-index lookup into the dense arrays.
    entity_component_map: IndexTable,
    /// Guard state of each dense slot, in the same order.
    locks: Vec<LockState>,
}

impl<Comp> ComponentManager<Comp> where Comp: Component + 'static {
    pub closed spec fn components_view(self) -> Seq<Comp> {
        self.components@
    }

    pub closed spec fn entity_seq(self) -> Seq<Entity> {
        self.entity_ids@
    }

    pub closed spec fn lookup(self) -> Map<u64, usize> {
        index_table_contents(self.entity_component_map)
    }

    pub closed spec fn locks_view(self) -> Seq<LockState> {
        self.locks@
    }

    /// The dense arrays, the lock array and the lookup table agree.
    pub open spec fn wf(self) -> bool {
        &&& self.components_view().len() == self.entity_seq().len()
        &&& self.locks_view().len() == self.entity_seq().len()
        &&& forall|i: int|
            0 <= i < self.entity_seq().len() ==> self.lookup().contains_key(
                (#[trigger] self.entity_seq()[i]).spec_bits(),
            ) && self.lookup()[self.entity_seq()[i].spec_bits()] == i
        &&& forall|k: u64|
            #[trigger] self.lookup().contains_key(k) ==> self.lookup()[k]
                < self.entity_seq().len() && self.entity_seq()[self.lookup()[k] as int].spec_bits()
                == k
    }

    /// Whether the entity currently holds a component of this type.
    pub open spec fn has(self, e: Entity) -> bool {
        self.lookup().contains_key(e.spec_bits())
    }

    /// The dense index of the entity's component.
    pub open spec fn index_of(self, e: Entity) -> int {
        self.lookup()[e.spec_bits()] as int
    }

    /// The component value currently attached to the entity.
    pub open spec fn component_at(self, e: Entity) -> Comp {
        self.components_view()[self.index_of(e)]
    }

    /// Guard state of the entity's slot.
    pub open spec fn lock_at(self, e: Entity) -> LockState {
        self.locks_view()[self.index_of(e)]
    }

    /// No guard of any kind is currently held on the store.
    pub open spec fn all_free(self) -> bool {
        forall|i: int| 0 <= i < self.locks_view().len() ==> (#[trigger] self.locks_view()[i]).free()
    }

    /// Everything except the lock array is as before.
    pub open spec fn same_storage(pre: Self, post: Self) -> bool {
        &&& post.components_view() == pre.components_view()
        &&& post.entity_seq() == pre.entity_seq()
        &&& post.lookup() == pre.lookup()
    }

    /// Transition relation of [`Self::remove_component_from_entity`]: the
    /// value, owner and lock slots are swapped with the last ones and
    /// dropped, and the lookup entry of the entry that moved is repaired; an
    /// absent component leaves all four structures untouched.
    pub open spec fn detach_post(pre: Self, post: Self, e: Entity) -> bool {
        if pre.has(e) {
            let i = pre.index_of(e);
            &&& post.components_view() == pre.components_view().update(
                i,
                pre.components_view().last(),
            ).drop_last()
            &&& post.entity_seq() == pre.entity_seq().update(i, pre.entity_seq().last())
                .drop_last()
            &&& post.locks_view() == pre.locks_view().update(i, pre.locks_view().last())
                .drop_last()
            &&& post.lookup() == if i == pre.entity_seq().len() - 1 {
                pre.lookup().remove(e.spec_bits())
            } else {
                pre.lookup().insert(pre.entity_seq().last().spec_bits(), i as usize).remove(
                    e.spec_bits(),
                )
            }
        } else {
            &&& Self::same_storage(pre, post)
            &&& post.locks_view() == pre.locks_view()
        }
    }

    /// Holding a component is the same as appearing among the owners.
    pub proof fn lemma_has_iff_contains(self, e: Entity)
        requires
            self.wf(),
        ensures
            self.has(e) <==> self.entity_seq().contains(e),
    {
        if self.has(e) {
            let i = self.index_of(e);
            lemma_entity_bits_injective(self.entity_seq()[i], e);
            assert(self.entity_seq()[i] == e);
        }
        if self.entity_seq().contains(e) {
            let i = choose|i: int| 0 <= i < self.entity_seq().len() && self.entity_seq()[i] == e;
            assert(self.lookup().contains_key(self.entity_seq()[i].spec_bits()));
        }
    }

    /// Creates an empty store for the component type.
    pub fn make() -> (r: Self)
        ensures
            r.wf(),
            r.components_view() =~= Seq::<Comp>::empty(),
            r.entity_seq() =~= Seq::<Entity>::empty(),
            r.locks_view() =~= Seq::<LockState>::empty(),
            r.lookup() =~= Map::<u64, usize>::empty(),
    {
        ComponentManager {
            components: Vec::new(),
            entity_ids: Vec::new(),
            entity_component_map: IndexTable::new(),
            locks: Vec::new(),
        }
    }

    /// Attaches a component to the entity with its guard slot free; if the
    /// entity already holds one of this type, nothing changes.
    pub fn add_component_to_entity(&mut self, entity_id: Entity, component: Comp)
        requires
            old(self).wf(),
        ensures
            final(self).wf(),
            final(self).has(entity_id),
            old(self).has(entity_id) ==> Self::same_storage(*old(self), *final(self)) && final(self).locks_view() == old(self).locks_view(),
            !old(self).has(entity_id) ==> {
                &&& final(self).components_view() == old(self).components_view().push(component)
                &&& final(self).entity_seq() == old(self).entity_seq().push(entity_id)
                &&& final(self).locks_view() == old(self).locks_view().push(
                    (LockState { readers: 0, writer: false }),
                )
                &&& final(self).lookup() == old(self).lookup().insert(
                    entity_id.spec_bits(),
                    old(self).entity_seq().len() as usize,
                )
            },
            !old(self).has(entity_id) ==> final(self).component_at(entity_id) == component,
            forall|k: Entity| #[trigger]
                old(self).has(k) ==> final(self).has(k) && final(self).component_at(k)
                    == old(self).component_at(k) && final(self).lock_at(k) == old(self).lock_at(k),
    {
        let key = entity_id.to_bits();
        if self.entity_component_map.contains_key(key) {
            return;
        }
        let component_index = self.components.len();
        self.components.push(component);
        self.entity_ids.push(entity_id);
        self.locks.push(LockState { readers: 0, writer: false });
        self.entity_component_map.insert(key, component_index);
        proof {
            let pre = *old(self);
            assert forall|i: int|
                0 <= i < self.entity_seq().len() implies self.lookup().contains_key(
                (#[trigger] self.entity_seq()[i]).spec_bits(),
            ) && self.lookup()[self.entity_seq()[i].spec_bits()] == i by {
                if i < pre.entity_seq().len() {
                    assert(self.entity_seq()[i] == pre.entity_seq()[i]);
                    if pre.entity_seq()[i].spec_bits() == entity_id.spec_bits() {
                        lemma_entity_bits_injective(pre.entity_seq()[i], entity_id);
                    }
                }
            }
            assert forall|k: u64| #[trigger]
                self.lookup().contains_key(k) implies self.lookup()[k] < self.entity_seq().len()
                && self.entity_seq()[self.lookup()[k] as int].spec_bits() == k by {
                if k != entity_id.spec_bits() {
                    let j = pre.lookup()[k] as int;
                    assert(self.entity_seq()[j] == pre.entity_seq()[j]);
                }
            }
            assert forall|k: Entity| #[trigger] pre.has(k) implies self.has(k)
                && self.component_at(k) == pre.component_at(k) && self.lock_at(k) == pre.lock_at(
                k,
            ) by {
                assert(pre.lookup()[k.spec_bits()] < pre.entity_seq().len());
            }
        }
    }

    /// Whether the entity currently holds a component of this type.
    pub fn has_component_of(&self, entity_id: Entity) -> (r: bool)
        requires
            self.wf(),
        ensures
            r == self.has(entity_id),
    {
        self.entity_component_map.contains_key(entity_id.to_bits())
    }

    /// Acquires a read guard on the entity's component: fails on an absent
    /// component or while a write guard is held on that slot; other slots and
    /// other read guards are unaffected.
    pub fn borrow_component(&mut self, entity_id: Entity) -> (r: Option<ComponentHandle>)
        requires
            old(self).wf(),
            old(self).has(entity_id) ==> old(self).lock_at(entity_id).readers < usize::MAX,
        ensures
            final(self).wf(),
            Self::same_storage(*old(self), *final(self)),
            if old(self).has(entity_id) && !old(self).lock_at(entity_id).writer {
                &&& r == Some(ComponentHandle { entity_id })
                &&& final(self).locks_view() == old(self).locks_view().update(
                    old(self).index_of(entity_id),
                    (LockState {
                        readers: (old(self).lock_at(entity_id).readers + 1) as usize,
                        writer: false,
                    }),
                )
            } else {
                &&& r is None
                &&& final(self).locks_view() == old(self).locks_view()
            },
    {
        let key = entity_id.to_bits();
        let idx = match self.entity_component_map.get(key) {
            Some(i) => i,
            None => {
                return None;
            },
        };
        proof {
            assert(self.lookup().contains_key(key));
            assert(idx == self.lookup()[key]);
            assert(idx < self.locks_view().len());
        }
        if self.locks[idx].writer {
            return None;
        }
        let readers = self.locks[idx].readers;
        self.locks[idx] = LockState { readers: readers + 1, writer: false };
        Some(ComponentHandle { entity_id })
    }

    /// Acquires a write guard on the entity's component: fails on an absent
    /// component or while any guard is held on that slot.
    pub fn borrow_component_mut(&mut self, entity_id: Entity) -> (r: Option<MutComponentHandle>)
        requires
            old(self).wf(),
        ensures
            final(self).wf(),
            Self::same_storage(*old(self), *final(self)),
            if old(self).has(entity_id) && old(self).lock_at(entity_id).free() {
                &&& r == Some(MutComponentHandle { entity_id })
                &&& final(self).locks_view() == old(self).locks_view().update(
                    old(self).index_of(entity_id),
                    (LockState { readers: 0, writer: true }),
                )
            } else {
                &&& r is None
                &&& final(self).locks_view() == old(self).locks_view()
            },
    {
        let key = entity_id.to_bits();
        let idx = match self.entity_component_map.get(key) {
            Some(i) => i,
            None => {
                return None;
            },
        };
        proof {
            assert(self.lookup().contains_key(key));
            assert(idx == self.lookup()[key]);
            assert(idx < self.locks_view().len());
        }
        if self.locks[idx].writer || self.locks[idx].readers > 0 {
            return None;
        }
        self.locks[idx] = LockState { readers: 0, writer: true };
        Some(MutComponentHandle { entity_id })
    }

    /// Returns a read guard previously acquired with
    /// [`Self::borrow_component`].
    pub fn release_component(&mut self, handle: ComponentHandle)
        requires
            old(self).wf(),
            old(self).has(handle.entity_id),
            old(self).lock_at(handle.entity_id).readers > 0,
        ensures
            final(self).wf(),
            Self::same_storage(*old(self), *final(self)),
            final(self).locks_view() == old(self).locks_view().update(
                old(self).index_of(handle.entity_id),
                (LockState {
                    readers: (old(self).lock_at(handle.entity_id).readers - 1) as usize,
                    writer: old(self).lock_at(handle.entity_id).writer,
                }),
            ),
    {
        let key = handle.entity_id.to_bits();
        let idx = self.entity_component_map.get(key).unwrap();
        proof {
            assert(idx == self.lookup()[key]);
            assert(idx < self.locks_view().len());
        }
        let st = LockState { readers: self.locks[idx].readers - 1, writer: self.locks[idx].writer };
        self.locks[idx] = st;
    }

    /// Returns a write guard previously acquired with
    /// [`Self::borrow_component_mut`].
    pub fn release_component_mut(&mut self, handle: MutComponentHandle)
        requires
            old(self).wf(),
            old(self).has(handle.entity_id),
            old(self).lock_at(handle.entity_id).writer,
        ensures
            final(self).wf(),
            Self::same_storage(*old(self), *final(self)),
            final(self).locks_view() == old(self).locks_view().update(
                old(self).index_of(handle.entity_id),
                (LockState { readers: old(self).lock_at(handle.entity_id).readers, writer: false }),
            ),
    {
        let key = handle.entity_id.to_bits();
        let idx = self.entity_component_map.get(key).unwrap();
        proof {
            assert(idx == self.lookup()[key]);
            assert(idx < self.locks_view().len());
        }
        let st = LockState { readers: self.locks[idx].readers, writer: false };
        self.locks[idx] = st;
    }

    /// Read access through a held read guard.
    pub fn read_component(&self, handle: &ComponentHandle) -> (r: &Comp)
        requires
            self.wf(),
            self.has(handle.entity_id),
            self.lock_at(handle.entity_id).readers > 0,
        ensures
            *r == self.component_at(handle.entity_id),
    {
        let idx = self.entity_component_map.get(handle.entity_id.to_bits()).unwrap();
        proof {
            assert(idx == self.index_of(handle.entity_id));
            assert(idx < self.components_view().len());
        }
        &self.components[idx]
    }

    /// Replaces the component value through a held write guard.
    pub fn write_component(&mut self, handle: &MutComponentHandle, value: Comp)
        requires
            old(self).wf(),
            old(self).has(handle.entity_id),
            old(self).lock_at(handle.entity_id).writer,
        ensures
            final(self).wf(),
            final(self).entity_seq() == old(self).entity_seq(),
            final(self).lookup() == old(self).lookup(),
            final(self).locks_view() == old(self).locks_view(),
            final(self).components_view() == old(self).components_view().update(
                old(self).index_of(handle.entity_id),
                value,
            ),
    {
        let idx = self.entity_component_map.get(handle.entity_id.to_bits()).unwrap();
        proof {
            assert(idx == old(self).index_of(handle.entity_id));
            assert(idx < self.components_view().len());
        }
        self.components[idx] = value;
    }

    /// Reads the component value through a held write guard.
    pub fn read_component_mut(&self, handle: &MutComponentHandle) -> (r: &Comp)
        requires
            self.wf(),
            self.has(handle.entity_id),
            self.lock_at(handle.entity_id).writer,
        ensures
            *r == self.component_at(handle.entity_id),
    {
        let idx = self.entity_component_map.get(handle.entity_id.to_bits()).unwrap();
        proof {
            assert(idx == self.index_of(handle.entity_id));
            assert(idx < self.components_view().len());
        }
        &self.components[idx]
    }

    /// How many read guards are currently held on the entity's slot.
    pub fn reader_count_of(&self, entity_id: Entity) -> (r: usize)
        requires
            self.wf(),
            self.has(entity_id),
        ensures
            r == self.lock_at(entity_id).readers,
    {
        let idx = self.entity_component_map.get(entity_id.to_bits()).unwrap();
        proof {
            assert(idx == self.index_of(entity_id));
            assert(idx < self.locks_view().len());
        }
        self.locks[idx].readers
    }

    /// Whether the write guard is currently held on the entity's slot.
    pub fn writer_of(&self, entity_id: Entity) -> (r: bool)
        requires
            self.wf(),
            self.has(entity_id),
        ensures
            r == self.lock_at(entity_id).writer,
    {
        let idx = self.entity_component_map.get(entity_id.to_bits()).unwrap();
        proof {
            assert(idx == self.index_of(entity_id));
            assert(idx < self.locks_view().len());
        }
        self.locks[idx].writer
    }

    /// Whether every slot's reader counter still has headroom.
    pub fn read_guard_headroom(&self) -> (r: bool)
        requires
            self.wf(),
        ensures
            r == (forall|i: int|
                0 <= i < self.locks_view().len() ==> (#[trigger] self.locks_view()[i]).readers
                    < usize::MAX),
    {
        let mut i: usize = 0;
        while i < self.locks.len()
            invariant
                self.wf(),
                0 <= i <= self.locks_view().len(),
                forall|k: int|
                    0 <= k < i ==> (#[trigger] self.locks_view()[k]).readers < usize::MAX,
            decreases self.locks_view().len() - i,
        {
            if self.locks[i].readers == usize::MAX {
                return false;
            }
            i += 1;
        }
        true
    }

    /// Acquires a read guard on every live component at once, in dense
    /// order; fails entirely, changing nothing, if any single acquisition
    /// would fail.
    pub fn borrow_all_components(&mut self) -> (r: Option<Vec<ComponentHandle>>)
        requires
            old(self).wf(),
            forall|i: int|
                0 <= i < old(self).locks_view().len() ==> (#[trigger] old(self).locks_view()[i]).readers < usize::MAX,
        ensures
            final(self).wf(),
            Self::same_storage(*old(self), *final(self)),
            if forall|i: int|
                0 <= i < old(self).locks_view().len() ==> !(#[trigger] old(self).locks_view()[i]).writer {
                &&& r is Some
                &&& r->0@.len() == old(self).entity_seq().len()
                &&& forall|i: int|
                    0 <= i < r->0@.len() ==> (#[trigger] r->0@[i]).entity_id == old(self).entity_seq()[i]
                &&& final(self).locks_view().len() == old(self).locks_view().len()
                &&& forall|i: int|
                    0 <= i < old(self).locks_view().len() ==> (#[trigger] final(self).locks_view()[i]).readers == old(self).locks_view()[i].readers + 1 && !final(self).locks_view()[i].writer
            } else {
                r is None && final(self).locks_view() == old(self).locks_view()
            },
    {
        let ghost pre = *old(self);
        let mut i: usize = 0;
        while i < self.locks.len()
            invariant
                *self == pre,
                pre.wf(),
                0 <= i <= pre.locks_view().len(),
                forall|j: int| 0 <= j < i ==> !(#[trigger] pre.locks_view()[j]).writer,
            decreases pre.locks_view().len() - i,
        {
            if self.locks[i].writer {
                return None;
            }
            i += 1;
        }
        let mut handles: Vec<ComponentHandle> = Vec::new();
        let mut j: usize = 0;
        while j < self.entity_ids.len()
            invariant
                self.wf(),
                Self::same_storage(pre, *self),
                pre.wf(),
                forall|k: int| 0 <= k < pre.locks_view().len() ==> !(#[trigger] pre.locks_view()[k]).writer,
                forall|k: int|
                    0 <= k < pre.locks_view().len() ==> (#[trigger] pre.locks_view()[k]).readers
                        < usize::MAX,
                0 <= j <= pre.entity_seq().len(),
                self.locks_view().len() == pre.locks_view().len(),
                handles@.len() == j,
                forall|k: int|
                    0 <= k < j ==> (#[trigger] handles@[k]).entity_id == pre.entity_seq()[k],
                forall|k: int|
                    0 <= k < j ==> (#[trigger] self.locks_view()[k]).readers
                        == pre.locks_view()[k].readers + 1 && !self.locks_view()[k].writer,
                forall|k: int|
                    j <= k < pre.locks_view().len() ==> (#[trigger] self.locks_view()[k])
                        == pre.locks_view()[k],
            decreases pre.entity_seq().len() - j,
        {
            let readers = self.locks[j].readers;
            self.locks[j] = LockState { readers: readers + 1, writer: false };
            handles.push(ComponentHandle { entity_id: self.entity_ids[j] });
            j += 1;
        }
        Some(handles)
    }

    /// Acquires a write guard on every live component at once, in dense
    /// order; fails entirely, changing nothing, if any single acquisition
    /// would fail.
    pub fn borrow_all_components_mut(&mut self) -> (r: Option<Vec<MutComponentHandle>>)
        requires
            old(self).wf(),
        ensures
            final(self).wf(),
            Self::same_storage(*old(self), *final(self)),
            if old(self).all_free() {
                &&& r is Some
                &&& r->0@.len() == old(self).entity_seq().len()
                &&& forall|i: int|
                    0 <= i < r->0@.len() ==> (#[trigger] r->0@[i]).entity_id == old(self).entity_seq()[i]
                &&& final(self).locks_view().len() == old(self).locks_view().len()
                &&& forall|i: int|
                    0 <= i < final(self).locks_view().len() ==> (#[trigger] final(self).locks_view()[i]) == (LockState { readers: 0, writer: true })
            } else {
                r is None && final(self).locks_view() == old(self).locks_view()
            },
    {
        let ghost pre = *old(self);
        let mut i: usize = 0;
        while i < self.locks.len()
            invariant
                *self == pre,
                pre.wf(),
                0 <= i <= pre.locks_view().len(),
                forall|j: int| 0 <= j < i ==> (#[trigger] pre.locks_view()[j]).free(),
            decreases pre.locks_view().len() - i,
        {
            if self.locks[i].writer || self.locks[i].readers > 0 {
                return None;
            }
            i += 1;
        }
        let mut handles: Vec<MutComponentHandle> = Vec::new();
        let mut j: usize = 0;
        while j < self.entity_ids.len()
            invariant
                self.wf(),
                Self::same_storage(pre, *self),
                pre.wf(),
                0 <= j <= pre.entity_seq().len(),
                self.locks_view().len() == pre.locks_view().len(),
                handles@.len() == j,
                forall|k: int|
                    0 <= k < j ==> (#[trigger] handles@[k]).entity_id == pre.entity_seq()[k],
                forall|k: int|
                    0 <= k < j ==> (#[trigger] self.locks_view()[k]) == (LockState {
                        readers: 0,
                        writer: true,
                    }),
            decreases pre.entity_seq().len() - j,
        {
            self.locks[j] = LockState { readers: 0, writer: true };
            handles.push(MutComponentHandle { entity_id: self.entity_ids[j] });
            j += 1;
        }
        Some(handles)
    }
    /// Detaches the entity's component by swap-removal of its value, owner
    /// and lock slots, repairing the lookup entry of the entry that moved; a
    /// handle without a component attached is a no-op that leaves the store
    /// completely unchanged. Runs only against an idle store, since
    /// structural edits are drained between scheduling passes.
    pub fn remove_component_from_entity(&mut self, entity_id: Entity)
        requires
            old(self).wf(),
            old(self).all_free(),
        ensures
            final(self).wf(),
            final(self).all_free(),
            !final(self).has(entity_id),
            Self::detach_post(*old(self), *final(self), entity_id),
            forall|k: Entity|
                #[trigger] final(self).has(k) <==> (old(self).has(k) && k != entity_id),
            forall|k: Entity|
                old(self).has(k) && k != entity_id ==> final(self).component_at(k)
                    == old(self).component_at(k) && final(self).lock_at(k) == old(self).lock_at(k),
    {
        let key = entity_id.to_bits();
        if !self.entity_component_map.contains_key(key) {
            proof {
                old(self).lemma_has_iff_contains(entity_id);
            }
            return;
        }
        let components_length = self.components.len();
        let component_index = self.entity_component_map.get(key).unwrap();
        proof {
            assert(component_index == self.lookup()[key]);
            assert(component_index < self.entity_seq().len());
        }
        self.components.swap_remove(component_index);
        self.entity_ids.swap_remove(component_index);
        self.locks.swap_remove(component_index);
        if component_index != components_length - 1 {
            let moved = self.entity_ids[component_index];
            proof {
                let pre = *old(self);
                assert(moved == pre.entity_seq().last());
                assert(pre.lookup()[moved.spec_bits()] == components_length - 1);
                if moved.spec_bits() == entity_id.spec_bits() {
                    lemma_entity_bits_injective(moved, entity_id);
                }
            }
            self.entity_component_map.insert(moved.to_bits(), component_index);
        }
        self.entity_component_map.remove(key);
        proof {
            let pre = *old(self);
            pre.lemma_has_iff_contains(entity_id);
            let i = pre.index_of(entity_id);
            let n = pre.entity_seq().len() as int;
            assert forall|i2: int|
                0 <= i2 < self.entity_seq().len() implies self.lookup().contains_key(
                (#[trigger] self.entity_seq()[i2]).spec_bits(),
            ) && self.lookup()[self.entity_seq()[i2].spec_bits()] == i2 by {
                let k = self.entity_seq()[i2];
                if i2 == i && i < n - 1 {
                    assert(k == pre.entity_seq().last());
                } else {
                    assert(k == pre.entity_seq()[i2]);
                    assert(pre.lookup()[k.spec_bits()] == i2);
                    if k.spec_bits() == entity_id.spec_bits() {
                        lemma_entity_bits_injective(k, entity_id);
                    }
                    assert(k.spec_bits() != entity_id.spec_bits());
                    if k.spec_bits() == pre.entity_seq().last().spec_bits() {
                        lemma_entity_bits_injective(k, pre.entity_seq().last());
                    }
                }
            }
            assert forall|k: u64| #[trigger]
                self.lookup().contains_key(k) implies self.lookup()[k] < self.entity_seq().len()
                && self.entity_seq()[self.lookup()[k] as int].spec_bits() == k by {
                assert(k != entity_id.spec_bits());
                assert(pre.lookup().contains_key(k));
                if i < n - 1 && k == pre.entity_seq().last().spec_bits() {
                    assert(self.lookup()[k] == i);
                } else {
                    assert(self.lookup()[k] == pre.lookup()[k]);
                    assert(pre.lookup()[k] != i);
                    assert(pre.lookup()[k] != n - 1);
                }
            }
            assert(!self.lookup().contains_key(entity_id.spec_bits()));
            self.lemma_has_iff_contains(entity_id);
            assert(self.entity_seq() == pre.entity_seq().update(i, pre.entity_seq().last())
                .drop_last());
        }
        proof {
            let pre = *old(self);
            if pre.has(entity_id) {
                let i = pre.index_of(entity_id);
                let n = pre.entity_seq().len() as int;
                assert forall|x: int|
                    0 <= x < self.locks_view().len() implies (#[trigger] self.locks_view()[
                    x]).free() by {
                    if x == i && i < n - 1 {
                        assert(self.locks_view()[x] == pre.locks_view()[n - 1]);
                    } else {
                        assert(self.locks_view()[x] == pre.locks_view()[x]);
                    }
                }
                assert forall|k: Entity|
                    #[trigger] self.has(k) <==> (pre.has(k) && k != entity_id) by {
                    if k.spec_bits() == entity_id.spec_bits() {
                        lemma_entity_bits_injective(k, entity_id);
                        assert(!self.has(k));
                    } else {
                        if pre.has(k) {
                            assert(self.lookup().contains_key(k.spec_bits()));
                        }
                        if self.has(k) {
                            assert(pre.lookup().contains_key(k.spec_bits()));
                        }
                    }
                }
                assert forall|k: Entity|
                    pre.has(k) && k != entity_id implies self.component_at(k)
                    == pre.component_at(k) && self.lock_at(k) == pre.lock_at(k) by {
                    if k.spec_bits() == entity_id.spec_bits() {
                        lemma_entity_bits_injective(k, entity_id);
                    }
                    assert(k.spec_bits() != entity_id.spec_bits());
                    if i < n - 1 && k.spec_bits() == pre.entity_seq().last().spec_bits() {
                        assert(pre.lookup()[pre.entity_seq()[n - 1].spec_bits()] == n - 1);
                        assert(pre.index_of(k) == n - 1);
                        assert(self.lookup()[k.spec_bits()] == i);
                        assert(self.components_view()[i] == pre.components_view()[n - 1]);
                        assert(self.locks_view()[i] == pre.locks_view()[n - 1]);
                    } else {
                        let j = pre.index_of(k);
                        assert(j != i) by {
                            if j == i {
                                assert(pre.entity_seq()[i].spec_bits() == k.spec_bits());
                                assert(pre.entity_seq()[i].spec_bits() == entity_id.spec_bits());
                            }
                        }
                        assert(j != n - 1) by {
                            if j == n - 1 {
                                assert(pre.entity_seq()[n - 1].spec_bits() == k.spec_bits());
                                if i < n - 1 {
                                } else {
                                    assert(pre.entity_seq()[i].spec_bits()
                                        == entity_id.spec_bits());
                                }
                            }
                        }
                        assert(self.lookup()[k.spec_bits()] == j);
                        assert(self.components_view()[j] == pre.components_view()[j]);
                        assert(self.locks_view()[j] == pre.locks_view()[j]);
                    }
                }
            }
        }
    }

}

impl<Comp> EcsManager for ComponentManager<Comp> where Comp: Component + 'static {
    open spec fn inv(&self) -> bool {
        self.wf()
    }

    open spec fn entities_view(&self) -> Seq<Entity> {
        self.entity_seq()
    }

    open spec fn quiescent(&self) -> bool {
        self.all_free()
    }

    fn new() -> (r: Self) {
        Self::make()
    }

    fn remove_component_from_entity(&mut self, entity_id: Entity) {
        let ghost pre = *self;
        self.remove_component_from_entity(entity_id);
        proof {
            pre.lemma_has_iff_contains(entity_id);
            self.lemma_has_iff_contains(entity_id);
            if pre.has(entity_id) {
                let i = pre.index_of(entity_id);
                lemma_entity_bits_injective(pre.entity_seq()[i], entity_id);
                assert(pre.entity_seq()[i] == entity_id);
            }
        }
    }

    fn has_component(&self, entity_id: Entity) -> (r: bool) {
        proof {
            self.lemma_has_iff_contains(entity_id);
        }
        self.entity_component_map.contains_key(entity_id.to_bits())
    }

    fn get_entities(&self) -> (r: Vec<Entity>) {
        let mut out: Vec<Entity> = Vec::new();
        let mut i: usize = 0;
        while i < self.entity_ids.len()
            invariant
                0 <= i <= self.entity_seq().len(),
                out@ == self.entity_seq().take(i as int),
            decreases self.entity_seq().len() - i,
        {
            out.push(self.entity_ids[i]);
            i += 1;
        }
        proof {
            assert(out@ =~= self.entity_seq());
        }
        out
    }
}

} // verus!
