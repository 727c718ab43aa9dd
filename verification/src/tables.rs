//! Hash tables backing the stores' lookup structures.
//!
//! The tables wrap `hashbrown::HashMap`, which Verus cannot see into; each
//! wrapper's contract states, over an uninterpreted contents function, what
//! the map operation does.

use vstd::prelude::*;

verus! {

#[verifier::external_type_specification]
#[verifier::external_body]
pub struct ExTypeId(core::any::TypeId);

/// Relies on core::any::TypeId::of: an opaque identity for the type.
#[verifier::external_body]
pub fn type_id_of<T: 'static>() -> (r: core::any::TypeId) {
    core::any::TypeId::of::<T>()
}

/// Relies on core::any::TypeId's Clone impl: a copy of the identity.
pub assume_specification[ <core::any::TypeId as Clone>::clone ](t: &core::any::TypeId) -> (r:
    core::any::TypeId)
    ensures
        r == *t,
;

/// Lookup table from packed 64-bit keys to dense indices.
///
/// Holds a `hashbrown::HashMap<u64, usize>`; the struct is opaque to Verus
/// because the map type's allocator generics cannot be declared here.
#[verifier::external_body]
pub struct IndexTable {
    inner: hashbrown::HashMap<u64, usize>,
}

/// The key-to-index association an [`IndexTable`] currently holds.
pub uninterp spec fn index_table_contents(t: IndexTable) -> Map<u64, usize>;

impl IndexTable {
    /// Relies on hashbrown::HashMap::new: a new map holds no entries.
    #[verifier::external_body]
    pub fn new() -> (r: IndexTable)
        ensures
            index_table_contents(r) =~= Map::empty(),
    {
        IndexTable { inner: hashbrown::HashMap::new() }
    }

    /// Relies on hashbrown::HashMap::contains_key: whether the key has an
    /// entry.
    #[verifier::external_body]
    pub fn contains_key(&self, k: u64) -> (r: bool)
        ensures
            r == index_table_contents(*self).dom().contains(k),
    {
        self.inner.contains_key(&k)
    }

    /// Relies on hashbrown::HashMap::get: the value the key maps to, if any.
    #[verifier::external_body]
    pub fn get(&self, k: u64) -> (r: Option<usize>)
        ensures
            r == if index_table_contents(*self).dom().contains(k) {
                Some(index_table_contents(*self)[k])
            } else {
                Option::<usize>::None
            },
    {
        self.inner.get(&k).copied()
    }

    /// Relies on hashbrown::HashMap::insert: maps the key to the value and
    /// returns the value it replaced, if any.
    #[verifier::external_body]
    pub fn insert(&mut self, k: u64, v: usize) -> (r: Option<usize>)
        ensures
            index_table_contents(*final(self)) == index_table_contents(*old(self)).insert(k, v),
            r == if index_table_contents(*old(self)).dom().contains(k) {
                Some(index_table_contents(*old(self))[k])
            } else {
                Option::<usize>::None
            },
    {
        self.inner.insert(k, v)
    }

    /// Relies on hashbrown::HashMap::remove: drops the key's entry and
    /// returns the value it held, if any.
    #[verifier::external_body]
    pub fn remove(&mut self, k: u64) -> (r: Option<usize>)
        ensures
            index_table_contents(*final(self)) == index_table_contents(*old(self)).remove(k),
            r == if index_table_contents(*old(self)).dom().contains(k) {
                Some(index_table_contents(*old(self))[k])
            } else {
                Option::<usize>::None
            },
    {
        self.inner.remove(&k)
    }
}

/// Table from store identities to an is-write flag, backing access
/// descriptors.
///
/// Holds a `hashbrown::HashMap<u64, bool>`; the struct is opaque to Verus
/// because the map type's allocator generics cannot be declared here.
#[verifier::external_body]
pub struct AccessTable {
    inner: hashbrown::HashMap<u64, bool>,
}

/// The store-identity-to-flag association an [`AccessTable`] currently holds.
pub uninterp spec fn access_table_contents(t: AccessTable) -> Map<u64, bool>;

impl AccessTable {
    /// Relies on hashbrown::HashMap::new: a new map holds no entries.
    #[verifier::external_body]
    pub fn new() -> (r: AccessTable)
        ensures
            access_table_contents(r) =~= Map::empty(),
    {
        AccessTable { inner: hashbrown::HashMap::new() }
    }

    /// Relies on hashbrown::HashMap::get: the value the key maps to, if any.
    #[verifier::external_body]
    pub fn get(&self, k: u64) -> (r: Option<bool>)
        ensures
            r == if access_table_contents(*self).dom().contains(k) {
                Some(access_table_contents(*self)[k])
            } else {
                Option::<bool>::None
            },
    {
        self.inner.get(&k).copied()
    }

    /// Relies on hashbrown::HashMap::insert: maps the key to the value and
    /// returns the value it replaced, if any.
    #[verifier::external_body]
    pub fn insert(&mut self, k: u64, v: bool) -> (r: Option<bool>)
        ensures
            access_table_contents(*final(self)) == access_table_contents(*old(self)).insert(k, v),
            r == if access_table_contents(*old(self)).dom().contains(k) {
                Some(access_table_contents(*old(self))[k])
            } else {
                Option::<bool>::None
            },
    {
        self.inner.insert(k, v)
    }

    /// Relies on hashbrown::HashMap::iter: yields each entry exactly once,
    /// in no promised order.
    #[verifier::external_body]
    pub fn entries(&self) -> (r: Vec<(u64, bool)>)
        ensures
            forall|i: int|
                0 <= i < r@.len() ==> access_table_contents(*self).dom().contains(
                    (#[trigger] r@[i]).0,
                ) && access_table_contents(*self)[r@[i].0] == r@[i].1,
            forall|k: u64|
                access_table_contents(*self).dom().contains(k) ==> exists|i: int|
                    0 <= i < r@.len() && (#[trigger] r@[i]).0 == k,
            forall|i: int, j: int| 0 <= i < j < r@.len() ==> r@[i].0 != r@[j].0,
    {
        self.inner.iter().map(|(k, v)| (*k, *v)).collect()
    }
}

} // verus!
