use crate::data::TVal;
use crate::error::RuntimeError;
use crate::{HashType, Result};
use std::collections::HashMap;
use vstd::prelude::*;

verus! {

broadcast use vstd::std_specs::hash::group_hash_axioms;

/// The hash that names a resource type.
pub type ResourceHash = HashType;

/// How a system uses a resource.
#[derive(Debug, Clone, Copy, PartialEq, Eq, Structural)]
pub enum ResourceQueryAccessType {
    Read,
    Write,
}

/// What is known of a resource type: its name and its hash.
#[derive(Debug)]
pub struct ResourceTypeEntry {
    pub name: String,
    pub hash: ResourceHash,
}

/// A registered resource type and its value, once one was set.
#[derive(Debug)]
struct Resource {
    entry: ResourceTypeEntry,
    val: Option<TVal>,
}

/// The registered resource types and their values.
#[derive(Debug)]
pub struct ResourceManager {
    hash_map: HashMap<ResourceHash, usize>,
    resources: Vec<Resource>,
}

impl ResourceManager {
    /// The registered resource types, by hash.
    pub closed spec fn types(&self) -> Map<u64, ResourceTypeEntry> {
        Map::new(
            |h: u64| self.hash_map@.contains_key(h),
            |h: u64| self.resources@[self.hash_map@[h] as int].entry,
        )
    }

    /// The value of each registered resource type, by hash.
    pub closed spec fn values(&self) -> Map<u64, Option<TVal>> {
        Map::new(
            |h: u64| self.hash_map@.contains_key(h),
            |h: u64| self.resources@[self.hash_map@[h] as int].val,
        )
    }

    /// Each hash leads to the resource registered under it; no two hashes
    /// share a resource.
    pub closed spec fn wf(&self) -> bool {
        &&& forall|h: u64|
            #[trigger] self.hash_map@.contains_key(h) ==> {
                let i = self.hash_map@[h] as int;
                &&& 0 <= i < self.resources@.len()
                &&& self.resources@[i].entry.hash == h
            }
        &&& forall|d: int|
            0 <= d < self.resources@.len() ==> {
                &&& self.hash_map@.contains_key((#[trigger] self.resources@[d]).entry.hash)
                &&& self.hash_map@[self.resources@[d].entry.hash] == d
            }
    }

    pub fn create() -> (m: Self)
        ensures
            m.wf(),
            m.types() == Map::<u64, ResourceTypeEntry>::empty(),
            m.values() == Map::<u64, Option<TVal>>::empty(),
    {
        let m = ResourceManager { hash_map: HashMap::new(), resources: Vec::new() };
        assert(m.types() =~= Map::<u64, ResourceTypeEntry>::empty());
        assert(m.values() =~= Map::<u64, Option<TVal>>::empty());
        m
    }

    /// Registers `entry` without a value; refuses a hash that is already
    /// registered.
    pub fn register(&mut self, entry: ResourceTypeEntry) -> (r: Result<()>)
        requires
            old(self).wf(),
        ensures
            final(self).wf(),
            r is Ok <==> !old(self).types().contains_key(entry.hash),
            r is Ok ==> final(self).types() == old(self).types().insert(entry.hash, entry)
                && final(self).values() == old(self).values().insert(entry.hash, None::<TVal>),
            r is Err ==> *final(self) == *old(self) && r == Err::<(), RuntimeError>(
                RuntimeError::DuplicateResourceTypeHash { hash: entry.hash },
            ),
    {
        let hash = entry.hash;
        if self.hash_map.contains_key(&hash) {
            return Err(RuntimeError::DuplicateResourceTypeHash { hash });
        }
        let ghost before = *self;
        let idx = self.resources.len();
        self.resources.push(Resource { entry, val: None });
        self.hash_map.insert(hash, idx);
        proof {
            assert forall|h: u64| #[trigger] self.hash_map@.contains_key(h) implies {
                let i = self.hash_map@[h] as int;
                &&& 0 <= i < self.resources@.len()
                &&& self.resources@[i].entry.hash == h
            } by {
                if h != hash {
                    assert(before.hash_map@.contains_key(h));
                    assert(self.resources@[before.hash_map@[h] as int] == before.resources@[before.hash_map@[h] as int]);
                }
            }
            assert forall|d: int| 0 <= d < self.resources@.len() implies {
                &&& self.hash_map@.contains_key((#[trigger] self.resources@[d]).entry.hash)
                &&& self.hash_map@[self.resources@[d].entry.hash] == d
            } by {
                if d < idx {
                    assert(self.resources@[d] == before.resources@[d]);
                    assert(before.hash_map@.contains_key(before.resources@[d].entry.hash));
                }
            }
            assert forall|h: u64| #[trigger] self.hash_map@.contains_key(h) && h != hash implies self.resources@[self.hash_map@[h] as int]
                == before.resources@[before.hash_map@[h] as int] by {
                assert(before.hash_map@.contains_key(h));
            }
            assert(self.types() =~= before.types().insert(hash, entry));
            assert(self.values() =~= before.values().insert(hash, None::<TVal>));
        }
        Ok(())
    }

    /// The entry registered under `hash`.
    pub fn get_type(&self, hash: ResourceHash) -> (r: Result<&ResourceTypeEntry>)
        requires
            self.wf(),
        ensures
            r is Ok <==> self.types().contains_key(hash),
            r matches Ok(entry) ==> *entry == self.types()[hash],
            r is Err ==> r == Err::<&ResourceTypeEntry, RuntimeError>(
                RuntimeError::BadResourceTypeHash { hash },
            ),
    {
        match self.hash_map.get(&hash) {
            Some(idx) => Ok(&self.resources[*idx].entry),
            None => Err(RuntimeError::BadResourceTypeHash { hash }),
        }
    }

    /// The value of the resource `hash`, to read.
    pub fn locked_get(&self, hash: ResourceHash) -> (r: Result<&Option<TVal>>)
        requires
            self.wf(),
        ensures
            r is Ok <==> self.values().contains_key(hash),
            r matches Ok(v) ==> *v == self.values()[hash],
            r is Err ==> r == Err::<&Option<TVal>, RuntimeError>(
                RuntimeError::BadResourceTypeHash { hash },
            ),
    {
        match self.hash_map.get(&hash) {
            Some(idx) => Ok(&self.resources[*idx].val),
            None => Err(RuntimeError::BadResourceTypeHash { hash }),
        }
    }

    /// The value of the resource `hash`, to change.
    pub fn locked_get_mut(&mut self, hash: ResourceHash) -> (r: Result<&mut Option<TVal>>)
        requires
            old(self).wf(),
        ensures
            r is Ok <==> old(self).values().contains_key(hash),
            r matches Ok(v) ==> {
                &&& *v == old(self).values()[hash]
                &&& final(self).wf()
                &&& final(self).types() == old(self).types()
                &&& final(self).values() == old(self).values().insert(hash, *final(v))
            },
            r is Err ==> *final(self) == *old(self) && r == Err::<&mut Option<TVal>, RuntimeError>(
                RuntimeError::BadResourceTypeHash { hash },
            ),
    {
        match self.hash_map.get(&hash) {
            Some(idx) => {
                let idx = *idx;
                Ok(&mut self.resources[idx].val)
            },
            None => Err(RuntimeError::BadResourceTypeHash { hash }),
        }
    }
}

/// A read of a resource after a write through `locked_get_mut` gives back
/// what was written, and the other resources read as before.
pub proof fn law_read_after_write(
    before: Map<u64, Option<TVal>>,
    after: Map<u64, Option<TVal>>,
    hash: u64,
    written: Option<TVal>,
    other: u64,
)
    requires
        before.contains_key(hash),
        after == before.insert(hash, written),
    ensures
        after.contains_key(hash),
        after[hash] == written,
        other != hash ==> (after.contains_key(other) <==> before.contains_key(other)),
        other != hash && before.contains_key(other) ==> after[other] == before[other],
        after.dom() == before.dom(),
{
    assert(after.dom() =~= before.dom());
}

} // verus!
