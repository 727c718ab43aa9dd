//! Entity identities and the generation-checked allocator that issues and
//! recycles them.

use vstd::prelude::*;

verus! {

/// Index of an entity slot; slots are re-used across entity lifetimes.
pub type EntityId = u32;

/// A generation-tagged identifier for a logical record. A value refers to a
/// live record only while its generation matches the allocator's currently
/// recorded generation for its slot; a mismatch means the handle is stale.
#[derive(Clone, Copy, PartialEq, Eq, Hash, Structural, Debug)]
pub struct Entity {
    pub index: u32,
    pub generation: u32,
}

impl Entity {
    /// Packs both fields into one integer, usable as a lookup-table key.
    pub open spec fn spec_bits(self) -> u64 {
        ((self.index as u64) << 32u64) | (self.generation as u64)
    }

    /// Packs both fields into one integer, usable as a lookup-table key.
    pub fn to_bits(&self) -> (r: u64)
        ensures
            r == self.spec_bits(),
    {
        ((self.index as u64) << 32u64) | (self.generation as u64)
    }
}

/// Distinct entities pack to distinct keys, so a table keyed by the packed
/// form never confuses a stale handle with a live one.
pub proof fn lemma_entity_bits_injective(a: Entity, b: Entity)
    requires
        a.spec_bits() == b.spec_bits(),
    ensures
        a == b,
{
    let (ai, ag, bi, bg) = (a.index, a.generation, b.index, b.generation);
    assert((((ai as u64) << 32u64) | (ag as u64)) == (((bi as u64) << 32u64) | (bg as u64))
        ==> ai == bi && ag == bg) by (bit_vector);
}

/// Issues and recycles [`Entity`] identities using a growable list of current
/// generations plus a free list of reclaimable slot indices.
pub struct EntityManager {
    /// One record per slot; the record at position `i` has index `i` and
    /// carries the slot's currently recorded generation.
    entities: Vec<Entity>,
    /// Slot indices available for re-use.
    empty_index: Vec<usize>,
}

impl EntityManager {
    /// The slot records, indexed by slot.
    pub closed spec fn slots(self) -> Seq<Entity> {
        self.entities@
    }

    /// The indices currently awaiting re-use.
    pub closed spec fn free_list(self) -> Seq<usize> {
        self.empty_index@
    }

    pub open spec fn slot_count(self) -> nat {
        self.slots().len()
    }

    pub open spec fn is_free(self, i: int) -> bool {
        exists|j: int| 0 <= j < self.free_list().len() && self.free_list()[j] as int == i
    }

    pub open spec fn wf(self) -> bool {
        &&& self.slots().len() <= u32::MAX
        &&& forall|i: int|
            0 <= i < self.slots().len() ==> (#[trigger] self.slots()[i]).index == i as u32
        &&& forall|j: int|
            0 <= j < self.free_list().len() ==> (#[trigger] self.free_list()[j]) < self.slots().len()
        &&& forall|j1: int, j2: int|
            0 <= j1 < j2 < self.free_list().len() ==> self.free_list()[j1] != self.free_list()[j2]
    }

    /// A handle is live when its slot exists, carries its generation, and is
    /// not awaiting re-use.
    pub open spec fn live(self, e: Entity) -> bool {
        &&& e.index < self.slots().len()
        &&& self.slots()[e.index as int].generation == e.generation
        &&& !self.is_free(e.index as int)
    }

    pub fn new() -> (r: EntityManager)
        ensures
            r.wf(),
            r.slot_count() == 0,
            r.free_list().len() == 0,
    {
        EntityManager { entities: Vec::new(), empty_index: Vec::new() }
    }

    fn free_contains(&self, i: usize) -> (r: bool)
        ensures
            r == self.is_free(i as int),
    {
        let mut j: usize = 0;
        while j < self.empty_index.len()
            invariant
                0 <= j <= self.free_list().len(),
                forall|k: int| 0 <= k < j ==> (#[trigger] self.free_list()[k]) != i,
            decreases self.free_list().len() - j,
        {
            if self.empty_index[j] == i {
                return true;
            }
            j += 1;
        }
        false
    }

    /// Creates an entity: re-uses the most recently freed slot at its
    /// recorded generation, or appends a fresh slot at generation zero.
    pub fn create_entity(&mut self) -> (r: Entity)
        requires
            old(self).wf(),
            old(self).free_list().len() == 0 ==> old(self).slot_count() < u32::MAX,
        ensures
            final(self).wf(),
            create_post(*old(self), *final(self), r),
            final(self).live(r),
            !old(self).live(r),
            forall|e: Entity| old(self).live(e) ==> final(self).live(e),
            forall|e: Entity| e != r ==> (final(self).live(e) <==> old(self).live(e)),
    {
        if self.empty_index.len() > 0 {
            let slot = self.empty_index.pop().unwrap();
            let r = self.entities[slot];
            proof {
                let pre = *old(self);
                assert(pre.free_list()[pre.free_list().len() - 1] as int == slot as int);
                assert(!self.is_free(slot as int));
                assert forall|e: Entity| pre.live(e) implies self.live(e) by {
                    assert(!pre.is_free(e.index as int));
                    if self.is_free(e.index as int) {
                        let j = choose|j: int|
                            0 <= j < self.free_list().len() && self.free_list()[j] as int
                                == e.index as int;
                        assert(pre.free_list()[j] as int == e.index as int);
                    }
                }
                assert forall|e: Entity| e != r && self.live(e) implies pre.live(e) by {
                    if pre.is_free(e.index as int) {
                        let j = choose|j: int|
                            0 <= j < pre.free_list().len() && pre.free_list()[j] as int
                                == e.index as int;
                        if j < pre.free_list().len() - 1 {
                            assert(self.free_list()[j] as int == e.index as int);
                        } else {
                            assert(e.index as int == slot as int);
                            assert(e == r);
                        }
                    }
                }
            }
            r
        } else {
            let r = Entity { index: self.entities.len() as u32, generation: 0 };
            self.entities.push(r);
            proof {
                let pre = *old(self);
                assert(self.free_list() =~= pre.free_list());
                assert(!self.is_free(r.index as int));
            }
            r
        }
    }

    /// Invalidates a handle: on a live handle, bumps the slot's recorded
    /// generation and returns the slot to the free list; on a stale handle,
    /// does nothing.
    pub fn dispose_entity_id(&mut self, entity_id: Entity)
        requires
            old(self).wf(),
            old(self).live(entity_id) ==> entity_id.generation < u32::MAX,
        ensures
            final(self).wf(),
            dispose_post(*old(self), *final(self), entity_id),
            !final(self).live(entity_id),
            forall|e: Entity|
                e != entity_id ==> (final(self).live(e) <==> old(self).live(e)),
    {
        let idx = entity_id.index as usize;
        if idx >= self.entities.len() {
            return;
        }
        if self.entities[idx].generation != entity_id.generation {
            return;
        }
        if self.free_contains(idx) {
            return;
        }
        let bumped = Entity { index: entity_id.index, generation: entity_id.generation + 1 };
        self.entities[idx] = bumped;
        self.empty_index.push(idx);
        proof {
            let pre = *old(self);
            assert(self.free_list()[self.free_list().len() - 1] as int == idx as int);
            assert(self.slots() == pre.slots().update(idx as int, bumped));
            assert forall|i: int|
                0 <= i < self.slots().len() implies (#[trigger] self.slots()[i]).index
                == i as u32 by {
                if i != idx as int {
                    assert(self.slots()[i] == pre.slots()[i]);
                }
            }
            assert forall|j: int|
                0 <= j < self.free_list().len() implies (#[trigger] self.free_list()[j])
                < self.slots().len() by {
                if j < self.free_list().len() - 1 {
                    assert(self.free_list()[j] == pre.free_list()[j]);
                } else {
                    assert(self.free_list()[j] == idx);
                }
            }
            assert forall|j1: int, j2: int|
                0 <= j1 < j2 < self.free_list().len() implies self.free_list()[j1]
                != self.free_list()[j2] by {
                if j2 == self.free_list().len() - 1 {
                    assert(self.free_list()[j1] == pre.free_list()[j1]);
                    assert(!pre.is_free(idx as int));
                } else {
                    assert(self.free_list()[j1] == pre.free_list()[j1]);
                    assert(self.free_list()[j2] == pre.free_list()[j2]);
                }
            }
            assert(!self.live(entity_id));
            assert forall|e: Entity| e != entity_id implies (self.live(e) <==> pre.live(e)) by {
                if e.index as int == idx as int {
                    assert(self.is_free(e.index as int));
                    if pre.live(e) {
                        assert(e.generation == entity_id.generation);
                        assert(e == entity_id);
                    }
                } else {
                    if pre.is_free(e.index as int) {
                        let j = choose|j: int|
                            0 <= j < pre.free_list().len() && pre.free_list()[j] as int
                                == e.index as int;
                        assert(self.free_list()[j] as int == e.index as int);
                    }
                    if self.is_free(e.index as int) {
                        let j = choose|j: int|
                            0 <= j < self.free_list().len() && self.free_list()[j] as int
                                == e.index as int;
                        assert(j < pre.free_list().len());
                        assert(pre.free_list()[j] as int == e.index as int);
                    }
                }
            }
        }
    }

    /// How many slots the allocator has ever created.
    pub fn slot_len(&self) -> (r: usize)
        ensures
            r == self.slot_count(),
    {
        self.entities.len()
    }

    /// How many slots currently await re-use.
    pub fn free_len(&self) -> (r: usize)
        ensures
            r == self.free_list().len(),
    {
        self.empty_index.len()
    }

    /// Whether the handle currently refers to a live slot.
    pub fn is_live(&self, e: Entity) -> (r: bool)
        requires
            self.wf(),
        ensures
            r == self.live(e),
    {
        let idx = e.index as usize;
        if idx >= self.entities.len() {
            return false;
        }
        if self.entities[idx].generation != e.generation {
            return false;
        }
        !self.free_contains(idx)
    }

    /// The slots not currently on the free list, as current handles, in slot
    /// order.
    pub fn get_active_entities(&self) -> (r: Vec<Entity>)
        requires
            self.wf(),
        ensures
            r@ == self.active_upto(self.slot_count() as int),
            forall|e: Entity| r@.contains(e) <==> self.live(e),
            forall|k1: int, k2: int|
                #![trigger r@[k1], r@[k2]]
                0 <= k1 < k2 < r@.len() ==> r@[k1].index < r@[k2].index,
            forall|k1: int, k2: int|
                #![trigger r@[k1], r@[k2]]
                0 <= k1 < k2 < r@.len() ==> r@[k1] != r@[k2],
    {
        let mut out: Vec<Entity> = Vec::new();
        let mut i: usize = 0;
        while i < self.entities.len()
            invariant
                self.wf(),
                0 <= i <= self.slot_count(),
                out@ == self.active_upto(i as int),
                forall|k: int| 0 <= k < out@.len() ==> (#[trigger] out@[k]).index < i,
                forall|k1: int, k2: int|
                    #![trigger out@[k1], out@[k2]]
                    0 <= k1 < k2 < out@.len() ==> out@[k1].index < out@[k2].index,
            decreases self.slot_count() - i,
        {
            if !self.free_contains(i) {
                out.push(self.entities[i]);
            }
            i += 1;
        }
        proof {
            self.lemma_active_upto_characterization(self.slot_count() as int);
            assert forall|e: Entity| out@.contains(e) <==> self.live(e) by {
                if self.live(e) {
                    assert(self.slots()[e.index as int] == e);
                }
            }
        }
        out
    }

    /// The active entities among the first `n` slots, in slot order.
    pub closed spec fn active_upto(self, n: int) -> Seq<Entity>
        decreases n,
    {
        if n <= 0 {
            Seq::empty()
        } else {
            let p = self.active_upto(n - 1);
            if self.is_free(n - 1) {
                p
            } else {
                p.push(self.slots()[n - 1])
            }
        }
    }

    proof fn lemma_active_upto_characterization(self, n: int)
        requires
            self.wf(),
            0 <= n <= self.slot_count(),
        ensures
            forall|e: Entity|
                self.active_upto(n).contains(e) <==> (e.index < n
                    && self.slots()[e.index as int] == e && !self.is_free(e.index as int)),
        decreases n,
    {
        if n > 0 {
            self.lemma_active_upto_characterization(n - 1);
            assert forall|e: Entity|
                self.active_upto(n).contains(e) implies (e.index < n
                && self.slots()[e.index as int] == e && !self.is_free(e.index as int)) by {
                let s = self.active_upto(n);
                let p = self.active_upto(n - 1);
                if !self.is_free(n - 1) {
                    let k = choose|k: int| 0 <= k < s.len() && s[k] == e;
                    if k < p.len() {
                        assert(p.contains(e));
                    } else {
                        assert(e == self.slots()[n - 1]);
                    }
                }
            }
            assert forall|e: Entity|
                (e.index < n && self.slots()[e.index as int] == e
                    && !self.is_free(e.index as int)) implies self.active_upto(n).contains(
                e) by {
                let p = self.active_upto(n - 1);
                if e.index < n - 1 {
                    assert(p.contains(e));
                    if !self.is_free(n - 1) {
                        assert(self.active_upto(n)[choose|k: int|
                            0 <= k < p.len() && p[k] == e] == e);
                    }
                } else {
                    assert(e.index as int == n - 1);
                    assert(self.slots()[n - 1] == e);
                    assert(!self.is_free(n - 1));
                    assert(self.active_upto(n).last() == e);
                }
            }
        }
    }
}

/// Transition relation of [`EntityManager::create_entity`].
pub open spec fn create_post(pre: EntityManager, post: EntityManager, r: Entity) -> bool {
    if pre.free_list().len() > 0 {
        &&& r == pre.slots()[pre.free_list().last() as int]
        &&& post.slots() == pre.slots()
        &&& post.free_list() == pre.free_list().drop_last()
    } else {
        &&& r == (Entity { index: pre.slot_count() as u32, generation: 0 })
        &&& post.slots() == pre.slots().push(r)
        &&& post.free_list() == pre.free_list()
    }
}

/// Transition relation of [`EntityManager::dispose_entity_id`].
pub open spec fn dispose_post(pre: EntityManager, post: EntityManager, e: Entity) -> bool {
    if pre.live(e) {
        &&& post.slots() == pre.slots().update(
            e.index as int,
            Entity { index: e.index, generation: (e.generation + 1) as u32 },
        )
        &&& post.free_list() == pre.free_list().push(e.index as usize)
    } else {
        &&& post.slots() == pre.slots()
        &&& post.free_list() == pre.free_list()
    }
}

/// Law: recorded generations never decrease, whatever operation runs.
pub proof fn lemma_create_keeps_generations(pre: EntityManager, post: EntityManager, r: Entity)
    requires
        pre.wf(),
        create_post(pre, post, r),
    ensures
        forall|i: int|
            0 <= i < pre.slot_count() ==> (#[trigger] post.slots()[i]).generation
                == pre.slots()[i].generation,
{
}

/// Law: recorded generations never decrease, whatever operation runs.
pub proof fn lemma_dispose_generations_monotonic(
    pre: EntityManager,
    post: EntityManager,
    e: Entity,
)
    requires
        pre.wf(),
        pre.live(e) ==> e.generation < u32::MAX,
        dispose_post(pre, post, e),
    ensures
        forall|i: int|
            0 <= i < pre.slot_count() ==> (#[trigger] post.slots()[i]).generation
                >= pre.slots()[i].generation,
{
}

/// Law: disposing a live handle and then re-creating an entity on the same
/// slot index issues a strictly greater generation than the disposed handle
/// carried, so the old handle can never alias the new one.
pub proof fn lemma_dispose_then_create_generation(
    m0: EntityManager,
    m1: EntityManager,
    m2: EntityManager,
    e: Entity,
    r: Entity,
)
    requires
        m0.wf(),
        m0.live(e),
        e.generation < u32::MAX,
        dispose_post(m0, m1, e),
        create_post(m1, m2, r),
        r.index == e.index,
    ensures
        r.generation == e.generation + 1,
{
    assert(m1.slots()[e.index as int].generation == e.generation + 1);
    if m1.free_list().len() > 0 {
        if m1.free_list().last() as int == e.index as int {
            assert(r == m1.slots()[e.index as int]);
        } else {
            assert(r == m1.slots()[m1.free_list().last() as int]);
            assert(m1.slots()[m1.free_list().last() as int].index as int
                == m1.free_list().last() as int) by {
                assert(m0.wf());
                assert(forall|i: int|
                    0 <= i < m1.slots().len() ==> (#[trigger] m1.slots()[i]).index == i as u32);
            }
        }
    }
}

} // verus!
