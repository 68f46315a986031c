use super::{ComponentHash, ComponentTypeId};
use crate::error::RuntimeError;
use crate::Result;
use std::collections::HashMap;
use vstd::prelude::*;

verus! {

broadcast use vstd::std_specs::hash::group_hash_axioms;

/// What is known of a component type: its size in bytes, its name, and the
/// hash that identifies it.
#[derive(Debug)]
pub struct ComponentTypeEntry {
    pub size: usize,
    pub name: String,
    pub hash: ComponentHash,
}

/// The registered component types, each under its id (its position of
/// registration), and an index from hashes to ids.
#[derive(Debug)]
pub struct ComponentTypeManager {
    component_tys: Vec<ComponentTypeEntry>,
    hash_map: HashMap<ComponentHash, ComponentTypeId>,
}

/// The hashes of `entries`, in order.
pub open spec fn entry_hashes(entries: Seq<ComponentTypeEntry>) -> Seq<u64> {
    Seq::new(entries.len(), |i: int| entries[i].hash)
}

impl ComponentTypeManager {
    /// The registered entries; the id of an entry is its position.
    pub closed spec fn entries(&self) -> Seq<ComponentTypeEntry> {
        self.component_tys@
    }

    /// The hashes of the registered entries, by id.
    pub open spec fn hashes(&self) -> Seq<u64> {
        entry_hashes(self.entries())
    }

    /// Some registered type has hash `h`.
    pub open spec fn knows(&self, h: u64) -> bool {
        self.hashes().contains(h)
    }

    /// The id of the registered type with hash `h`.
    pub open spec fn id_of(&self, h: u64) -> usize {
        self.hashes().index_of(h) as usize
    }

    /// No two registered types share a hash, and the index maps each hash
    /// to its type's id.
    pub closed spec fn wf(&self) -> bool {
        &&& self.entries().len() <= usize::MAX
        &&& self.hashes().no_duplicates()
        &&& forall|h: u64| #[trigger] self.hash_map@.contains_key(h) <==> self.knows(h)
        &&& forall|h: u64|
            #[trigger] self.hash_map@.contains_key(h) ==> {
                &&& self.hash_map@[h] < self.entries().len()
                &&& self.entries()[self.hash_map@[h] as int].hash == h
            }
    }

    /// The registered types fit in memory: their count is a `usize`.
    pub proof fn lemma_len_fits(&self)
        requires
            self.wf(),
        ensures
            self.entries().len() <= usize::MAX,
    {
    }

    pub fn create() -> (m: ComponentTypeManager)
        ensures
            m.wf(),
            m.entries() == Seq::<ComponentTypeEntry>::empty(),
    {
        let m = ComponentTypeManager { component_tys: Vec::new(), hash_map: HashMap::new() };
        assert(m.hashes() =~= Seq::<u64>::empty());
        m
    }

    /// Registers `entry` under the next id; refuses a hash that is already registered.
    pub fn register(&mut self, entry: ComponentTypeEntry) -> (r: Result<ComponentTypeId>)
        requires
            old(self).wf(),
        ensures
            final(self).wf(),
            r is Ok <==> !old(self).knows(entry.hash),
            r matches Ok(id) ==> id == old(self).entries().len() && final(self).entries()
                == old(self).entries().push(entry),
            r is Err ==> final(self).entries() == old(self).entries() && r == Err::<
                ComponentTypeId,
                RuntimeError,
            >(RuntimeError::DuplicateComponentTypeHash { hash: entry.hash }),
    {
        let hash = entry.hash;
        if self.hash_map.contains_key(&hash) {
            return Err(RuntimeError::DuplicateComponentTypeHash { hash });
        }
        let ghost before = self.entries();
        self.component_tys.push(entry);
        let id = self.component_tys.len() - 1;
        self.hash_map.insert(hash, id);
        proof {
            assert(self.hashes() =~= entry_hashes(before).push(hash));
            assert(self.entries()[id as int] == entry);
            assert forall|h: u64| #[trigger] self.hash_map@.contains_key(h) <==> self.knows(h) by {
                let old_h = entry_hashes(before);
                if h == hash {
                    assert(self.hashes()[id as int] == hash);
                } else {
                    if self.knows(h) {
                        let k = self.hashes().index_of(h);
                        assert(self.hashes()[k] == h);
                        assert(k < before.len());
                        assert(old_h[k] == h);
                        assert(old_h.contains(h));
                    }
                    if old_h.contains(h) {
                        let k = old_h.index_of(h);
                        assert(self.hashes()[k] == h);
                    }
                }
            }
            assert forall|h: u64| #[trigger] self.hash_map@.contains_key(h) implies {
                &&& self.hash_map@[h] < self.entries().len()
                &&& self.entries()[self.hash_map@[h] as int].hash == h
            } by {
                if h != hash {
                    assert(self.entries()[self.hash_map@[h] as int] == before[self.hash_map@[h] as int]);
                }
            }
        }
        Ok(id)
    }

    pub fn get(&self, id: ComponentTypeId) -> (r: Result<&ComponentTypeEntry>)
        requires
            self.wf(),
        ensures
            r is Ok <==> id < self.entries().len(),
            r matches Ok(e) ==> *e == self.entries()[id as int],
            self.entries().len() <= usize::MAX,
            r is Err ==> r == Err::<&ComponentTypeEntry, RuntimeError>(
                RuntimeError::BadComponentType { ctyid: id },
            ),
    {
        if id < self.component_tys.len() {
            Ok(&self.component_tys[id])
        } else {
            Err(RuntimeError::BadComponentType { ctyid: id })
        }
    }

    /// The id of the registered type with hash `hash`.
    pub fn get_id_with_hash(&self, hash: ComponentHash) -> (r: Result<ComponentTypeId>)
        requires
            self.wf(),
        ensures
            r is Ok <==> self.knows(hash),
            r matches Ok(id) ==> id == self.id_of(hash) && id < self.entries().len()
                && self.entries()[id as int].hash == hash,
            r is Err ==> r == Err::<ComponentTypeId, RuntimeError>(
                RuntimeError::BadComponentTypeHash { hash },
            ),
    {
        match self.hash_map.get(&hash) {
            Some(id) => {
                proof {
                    let i = *id as int;
                    assert(self.hashes()[i] == hash);
                    self.hashes().index_of_first_ensures(hash);
                    let k = self.hashes().index_of(hash);
                    if k != i {
                        assert(self.hashes().no_duplicates());
                    }
                }
                Ok(*id)
            },
            None => Err(RuntimeError::BadComponentTypeHash { hash }),
        }
    }

    /// The number of registered types.
    pub fn len(&self) -> (r: usize)
        ensures
            r == self.entries().len(),
    {
        self.component_tys.len()
    }
}

/// Registering a type with a new hash gives it the next id, under which a
/// lookup of its hash finds it, and every hash registered before keeps its id.
pub proof fn law_register_then_lookup(entries: Seq<ComponentTypeEntry>, entry: ComponentTypeEntry, h: u64)
    requires
        entry_hashes(entries).no_duplicates(),
        !entry_hashes(entries).contains(entry.hash),
    ensures
        entry_hashes(entries.push(entry)).no_duplicates(),
        entry_hashes(entries.push(entry)).contains(entry.hash),
        entry_hashes(entries.push(entry)).index_of(entry.hash) == entries.len(),
        entry_hashes(entries).contains(h) ==> entry_hashes(entries.push(entry)).index_of(h) == entry_hashes(
            entries,
        ).index_of(h),
{
    let old_h = entry_hashes(entries);
    let new_h = entry_hashes(entries.push(entry));
    assert(new_h =~= old_h.push(entry.hash));
    assert(new_h[entries.len() as int] == entry.hash);
    assert(new_h.contains(entry.hash));
    let k = new_h.index_of(entry.hash);
    assert(new_h[k] == entry.hash);
    if k < entries.len() {
        assert(old_h[k] == entry.hash);
    }
    if old_h.contains(h) {
        let i = old_h.index_of(h);
        assert(new_h[i] == h);
        let j = new_h.index_of(h);
        assert(new_h[j] == h);
        if j == entries.len() {
        } else {
            assert(old_h[j] == h);
        }
    }
}

} // verus!
