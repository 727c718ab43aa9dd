//! Access descriptors: the record of which stores a schedulable unit
//! touches and how, with internal-conflict rejection and the clash predicate
//! the dependency graph schedules by.

use vstd::prelude::*;
use crate::tables::{access_table_contents, AccessTable};

verus! {

/// A unit's own declared parameters conflict with one another; no execution
/// order could ever satisfy them, so registration is rejected.
#[derive(Clone, Copy, PartialEq, Eq, Structural, Debug)]
pub struct ConflictError {}

/// Two access maps clash when some store appears in both and either side
/// writes it; read-read sharing never clashes.
pub open spec fn clashes(a: Map<u64, bool>, b: Map<u64, bool>) -> bool {
    exists|rid: u64|
        #[trigger] a.contains_key(rid) && #[trigger] b.contains_key(rid) && (a[rid] || b[rid])
}

/// Law: the clash predicate does not care which side asks.
pub proof fn lemma_clashes_symmetric(a: Map<u64, bool>, b: Map<u64, bool>)
    ensures
        clashes(a, b) == clashes(b, a),
{
    if clashes(a, b) {
        let rid = choose|rid: u64|
            #[trigger] a.contains_key(rid) && #[trigger] b.contains_key(rid) && (a[rid] || b[rid]);
        assert(b.contains_key(rid) && a.contains_key(rid) && (b[rid] || a[rid]));
    }
    if clashes(b, a) {
        let rid = choose|rid: u64|
            #[trigger] b.contains_key(rid) && #[trigger] a.contains_key(rid) && (b[rid] || a[rid]);
        assert(a.contains_key(rid) && b.contains_key(rid) && (a[rid] || b[rid]));
    }
}

/// The record of world-store accesses one schedulable unit declares: store
/// identity to is-write flag.
pub struct SystemMetadata {
    dependency_metadata: AccessTable,
}

impl SystemMetadata {
    /// The declared accesses: store identity to is-write.
    pub closed spec fn accesses(self) -> Map<u64, bool> {
        access_table_contents(self.dependency_metadata)
    }

    /// Whether this descriptor clashes with another.
    pub open spec fn clashes_with(self, other: SystemMetadata) -> bool {
        clashes(self.accesses(), other.accesses())
    }

    /// An empty descriptor.
    pub fn new() -> (r: SystemMetadata)
        ensures
            r.accesses() =~= Map::empty(),
    {
        SystemMetadata { dependency_metadata: AccessTable::new() }
    }

    /// Records one parameter's store accesses: every listed store identity
    /// with the same is-write flag. If any entry conflicts with an already
    /// recorded one, or the parameter lists the same store twice for
    /// writing, nothing is recorded and the internal conflict is reported.
    pub fn push_dependency_metadata(&mut self, resource_ids: &Vec<u64>, is_mut: bool) -> (r: Result<
        (),
        ConflictError,
    >)
        ensures
            r is Ok <==> Self::compatible(old(self).accesses(), resource_ids@, is_mut),
            r is Err ==> final(self).accesses() == old(self).accesses(),
            r is Ok ==> {
                &&& forall|k: u64|
                    final(self).accesses().contains_key(k) <==> (old(self).accesses().contains_key(
                        k,
                    ) || resource_ids@.contains(k))
                &&& forall|i: int|
                    0 <= i < resource_ids@.len() ==> final(self).accesses()[resource_ids@[i]]
                        == is_mut
                &&& forall|k: u64|
                    old(self).accesses().contains_key(k) && !resource_ids@.contains(k)
                        ==> final(self).accesses()[k] == old(self).accesses()[k]
            },
    {
        let n = resource_ids.len();
        let mut i: usize = 0;
        while i < n
            invariant
                n == resource_ids@.len(),
                0 <= i <= n,
                forall|k: int|
                    0 <= k < i ==> !(self.accesses().contains_key(#[trigger] resource_ids@[k]) && (
                    self.accesses()[resource_ids@[k]] || is_mut)),
                forall|k1: int, k2: int|
                    0 <= k1 < k2 < i && is_mut ==> resource_ids@[k1] != resource_ids@[k2],
            decreases n - i,
        {
            let rid = resource_ids[i];
            match self.dependency_metadata.get(rid) {
                Some(existing_mut) => {
                    if existing_mut || is_mut {
                        proof {
                            assert(self.accesses().contains_key(resource_ids@[i as int]) && (
                            self.accesses()[resource_ids@[i as int]] || is_mut));
                        }
                        return Err(ConflictError {  });
                    }
                },
                None => {},
            }
            if is_mut {
                let mut j: usize = 0;
                while j < i
                    invariant
                        n == resource_ids@.len(),
                        0 <= j <= i < n,
                        is_mut,
                        rid == resource_ids@[i as int],
                        forall|k: int| 0 <= k < j ==> resource_ids@[k] != resource_ids@[i as int],
                    decreases i - j,
                {
                    if resource_ids[j] == rid {
                        proof {
                            assert(resource_ids@[j as int] == resource_ids@[i as int] && is_mut
                                && 0 <= j < i < resource_ids@.len());
                        }
                        return Err(ConflictError {  });
                    }
                    j += 1;
                }
            }
            i += 1;
        }
        let ghost m0 = self.accesses();
        let mut j: usize = 0;
        while j < n
            invariant
                n == resource_ids@.len(),
                0 <= j <= n,
                forall|k: u64|
                    self.accesses().contains_key(k) <==> (m0.contains_key(k)
                        || resource_ids@.take(j as int).contains(k)),
                forall|k: int|
                    0 <= k < j ==> self.accesses()[#[trigger] resource_ids@[k]] == is_mut,
                forall|k: u64|
                    m0.contains_key(k) && !resource_ids@.take(j as int).contains(k)
                        ==> self.accesses()[k] == m0[k],
                forall|k: int|
                    0 <= k < n ==> !(m0.contains_key(#[trigger] resource_ids@[k]) && (m0[
                        resource_ids@[k]] || is_mut)),
                forall|k1: int, k2: int|
                    0 <= k1 < k2 < n && is_mut ==> resource_ids@[k1] != resource_ids@[k2],
            decreases n - j,
        {
            let rid = resource_ids[j];
            self.dependency_metadata.insert(rid, is_mut);
            proof {
                assert(resource_ids@.take(j + 1) =~= resource_ids@.take(j as int).push(rid));
                assert forall|k: u64|
                    self.accesses().contains_key(k) <==> (m0.contains_key(k)
                        || resource_ids@.take(j + 1).contains(k)) by {
                    let t1 = resource_ids@.take(j + 1);
                    if k == rid {
                        assert(t1[j as int] == rid);
                        assert(t1.contains(k));
                    } else {
                        assert(resource_ids@.take(j as int).contains(k) <==> t1.contains(k)) by {
                            if resource_ids@.take(j as int).contains(k) {
                                let w = choose|w: int|
                                    0 <= w < j && resource_ids@.take(j as int)[w] == k;
                                assert(t1[w] == k);
                            }
                            if t1.contains(k) {
                                let w = choose|w: int| 0 <= w < j + 1 && t1[w] == k;
                                assert(w != j);
                                assert(resource_ids@.take(j as int)[w] == k);
                            }
                        }
                    }
                }
                assert forall|k: int|
                    0 <= k < j + 1 implies self.accesses()[#[trigger] resource_ids@[k]]
                    == is_mut by {}
            }
            j += 1;
        }
        proof {
            assert(resource_ids@.take(n as int) =~= resource_ids@);
        }
        Ok(())
    }

    /// No listed store is already recorded incompatibly, and a writing
    /// parameter lists no store twice.
    pub open spec fn compatible(m: Map<u64, bool>, ids: Seq<u64>, is_mut: bool) -> bool {
        &&& forall|i: int|
            0 <= i < ids.len() ==> !(m.contains_key(#[trigger] ids[i]) && (m[ids[i]] || is_mut))
        &&& forall|i: int, j: int| 0 <= i < j < ids.len() && is_mut ==> ids[i] != ids[j]
    }

    /// Whether any store appears in both descriptors with a write on either
    /// side; the sole conflict predicate the graph schedules by.
    pub fn is_resource_clashing(&self, other_metadata: &SystemMetadata) -> (r: bool)
        ensures
            r == self.clashes_with(*other_metadata),
    {
        let other_dependencies = other_metadata.dependency_metadata.entries();
        let ghost om = other_metadata.accesses();
        let mut i: usize = 0;
        let n = other_dependencies.len();
        while i < n
            invariant
                n == other_dependencies@.len(),
                0 <= i <= n,
                om == other_metadata.accesses(),
                forall|k: int|
                    0 <= k < n ==> om.contains_key((#[trigger] other_dependencies@[k]).0) && om[
                        other_dependencies@[k].0] == other_dependencies@[k].1,
                forall|k: u64|
                    om.contains_key(k) ==> exists|k2: int|
                        0 <= k2 < n && (#[trigger] other_dependencies@[k2]).0 == k,
                forall|k: int|
                    0 <= k < i ==> !(self.accesses().contains_key(
                        (#[trigger] other_dependencies@[k]).0,
                    ) && (self.accesses()[other_dependencies@[k].0] || other_dependencies@[k].1)),
            decreases n - i,
        {
            let (rid, is_other_mut) = other_dependencies[i];
            match self.dependency_metadata.get(rid) {
                Some(is_self_mut) => {
                    if is_self_mut || is_other_mut {
                        proof {
                            assert(self.accesses().contains_key(rid) && om.contains_key(rid) && (
                            self.accesses()[rid] || om[rid]));
                        }
                        return true;
                    }
                },
                None => {},
            }
            i += 1;
        }
        proof {
            if clashes(self.accesses(), om) {
                let rid = choose|rid: u64|
                    #[trigger] self.accesses().contains_key(rid) && #[trigger] om.contains_key(rid)
                        && (self.accesses()[rid] || om[rid]);
                let k2 = choose|k2: int|
                    0 <= k2 < n && (#[trigger] other_dependencies@[k2]).0 == rid;
                assert(!(self.accesses().contains_key(other_dependencies@[k2].0) && (
                self.accesses()[other_dependencies@[k2].0] || other_dependencies@[k2].1)));
            }
        }
        false
    }

    /// The declared accesses as plain pairs, in no promised order.
    pub fn get_world_resource_dependencies(&self) -> (r: Vec<(u64, bool)>)
        ensures
            forall|i: int|
                0 <= i < r@.len() ==> self.accesses().contains_key((#[trigger] r@[i]).0)
                    && self.accesses()[r@[i].0] == r@[i].1,
            forall|k: u64|
                self.accesses().contains_key(k) ==> exists|i: int|
                    0 <= i < r@.len() && (#[trigger] r@[i]).0 == k,
            forall|i: int, j: int| 0 <= i < j < r@.len() ==> r@[i].0 != r@[j].0,
    {
        self.dependency_metadata.entries()
    }
}

} // verus!
