use super::access::{
    inserted_all, reached, ArchetypeAccess, ArchetypeAccessKeyManager, lock_state_of,
};
use super::component_group::{ComponentGroup, ComponentGroupManager};
use super::component_type::ComponentTypeManager;
use super::locker::{law_release_undoes_obtain, obtain, release, LockState};
use super::query::{ComponentGroupQuery, ComponentQueryAccessType, ComponentQueryFilterType};
use super::component_group::{first_repeat, repeats_at, sorted_ids};
use super::component_type::ComponentTypeEntry;
use super::storage::{
    accepts, empty_storage, first_index, given, given_all, insert_ids, insert_taken,
    lemma_moved_shape,
    lemma_given_all_keeps, lemma_move_then_give, lemma_move_then_give_completes, lemma_moved_keeps, last_inserted, inserted_entity, lemma_moved_source, lemma_moved_zero, movable, moved, removable_entity,
    removed_entity, swap_removed, ArchetypeStorage, StorageModel,
};
use super::access::updated_keys;
use crate::data::TVal;
use super::transform::{EntityModify, EntityTransform};
use super::{ComponentGroupId, ComponentTypeId, Entity};
use crate::data::sparse::{
    lemma_keys_in_range, lemma_with_same_value, law_insert_fresh, law_insert_keeps_other_keys, law_with_value,
    SparseModel,
};
use crate::data::SparseSet;
use crate::error::RuntimeError;
use crate::Result;
use vstd::prelude::*;
use vstd::arithmetic::div_mod::{lemma_add_mod_noop, lemma_mod_pos_bound, lemma_mod_twice, lemma_small_mod};
use vstd::set_lib::{lemma_int_range, set_int_range};

verus! {

/// Each entity recorded in `es` is held by the storage of the group it is
/// recorded in.
#[verifier::opaque]
pub open spec fn entities_stored(es: SparseModel<usize>, sm: SparseModel<ArchetypeStorage>) -> bool {
    forall|id: usize| #[trigger] es.contains(id) ==> sm.value(es.value(id))@.has_entity(Entity { id })
}

/// The storages of all component groups, where each entity is stored, and
/// the access keys of the queries.
pub struct ArchetypeManager {
    lock_count: u32,
    storages: SparseSet<ComponentGroupId, ArchetypeStorage>,
    entity_set: SparseSet<usize, ComponentGroupId>,
    cgmgr: ComponentGroupManager,
    akmgr: ArchetypeAccessKeyManager,
}

impl ArchetypeManager {
    /// The number of column locks held through accesses.
    pub closed spec fn lock_count(&self) -> u32 {
        self.lock_count
    }

    /// The storages, by component group id.
    pub closed spec fn storages(&self) -> SparseModel<ArchetypeStorage> {
        self.storages@
    }

    /// For each entity id, the id of the group whose storage holds the entity.
    pub closed spec fn entity_set(&self) -> SparseModel<usize> {
        self.entity_set@
    }

    /// The registered component groups, by id.
    pub closed spec fn groups(&self) -> Seq<Seq<usize>> {
        self.cgmgr@
    }

    /// For each access key, its matching groups and their locks.
    pub closed spec fn keys(&self) -> Seq<Seq<(usize, SparseModel<LockState>)>> {
        self.akmgr.entries()
    }

    /// For each access key, the accesses of its query.
    pub closed spec fn key_accesses(&self) -> Seq<Seq<(usize, ComponentQueryAccessType)>> {
        self.akmgr.key_accesses()
    }

    /// For each access key, the filters of its query.
    pub closed spec fn key_filters(&self) -> Seq<Seq<(usize, ComponentQueryFilterType)>> {
        self.akmgr.key_filters()
    }

    /// The storage of group `gid`.
    pub open spec fn storage(&self, gid: usize) -> ArchetypeStorage {
        self.storages().value(gid)
    }

    /// Every registered group has a storage, and storages exist under
    /// registered group ids only, hold the types of their group, and are
    /// well formed; entities are recorded in registered groups, and each
    /// recorded entity is held by the storage of its group;
    /// every group an access key records is registered and its locks name
    /// types of the group.
    pub closed spec fn wf(&self) -> bool {
        let sm = self.storages@;
        &&& sm.wf()
        &&& sm.keys_in_range()
        &&& sm.contains(0)
        &&& self.entity_set@.keys_in_range()
        &&& self.entity_set@.wf()
        &&& entities_stored(self.entity_set@, self.storages@)
        &&& self.cgmgr.wf()
        &&& sm.dense.len() <= self.cgmgr@.len()
        &&& forall|g: usize| g < self.cgmgr@.len() ==> #[trigger] sm.contains(g)
        &&& forall|d: int|
            0 <= d < self.entity_set@.dense.len() ==> (#[trigger] self.entity_set@.dense[d]).1
                < self.cgmgr@.len()
        &&& forall|d: int|
            0 <= d < sm.dense.len() ==> {
                &&& (#[trigger] sm.dense[d]).0 < self.cgmgr@.len()
                &&& sm.dense[d].1.wf()
                &&& sm.dense[d].1@.tys == self.cgmgr@[sm.dense[d].0 as int]
            }
        &&& forall|i: int, j: int|
            0 <= i < self.keys().len() && 0 <= j < self.keys()[i].len() ==> {
                &&& (#[trigger] self.keys()[i][j]).0 < self.cgmgr@.len()
                &&& forall|d: int|
                    0 <= d < self.keys()[i][j].1.dense.len() ==> self.cgmgr@[self.keys()[i][j].0 as int].contains(
                        #[trigger] self.keys()[i][j].1.dense[d].0,
                    )
            }
    }

    /// A well-formed manager stores each registered group's storage under its id.
    pub proof fn lemma_storage(&self, gid: usize)
        requires
            self.wf(),
            self.storages().contains(gid),
        ensures
            self.storage(gid).wf(),
            gid < self.groups().len(),
            self.storage(gid)@.tys == self.groups()[gid as int],
    {
        let d = self.storages@.slot(gid)->0 as int;
        assert(self.storages@.dense[d].0 == gid);
    }

    /// A well-formed manager has the empty group under id 0.
    pub proof fn lemma_null_group(&self)
        requires
            self.wf(),
        ensures
            self.groups().len() > 0,
            self.groups().len() <= usize::MAX,
            self.groups()[0] == Seq::<usize>::empty(),
            self.storages().contains(0),
            self.storage(0)@.tys == Seq::<usize>::empty(),
            self.storage(0).wf(),
    {
        self.cgmgr.lemma_null_group();
        self.lemma_storage(0);
    }

    /// A well-formed manager records each entity in a registered group,
    /// whose storage exists.
    pub proof fn lemma_entity_group(&self, id: usize)
        requires
            self.wf(),
            self.entity_set().contains(id),
        ensures
            self.entity_set().value(id) < self.groups().len(),
            self.storages().contains(self.entity_set().value(id)),
    {
        let d = self.entity_set@.slot(id)->0 as int;
        assert(self.entity_set@.dense[d].1 < self.cgmgr@.len());
    }

    /// In a well-formed manager every recorded entity is held by the storage
    /// of the group it is recorded in.
    pub proof fn lemma_recorded_is_stored(&self, id: usize)
        requires
            self.wf(),
            self.entity_set().contains(id),
        ensures
            self.storage(self.entity_set().value(id))@.has_entity(Entity { id }),
    {
        reveal(entities_stored);
    }

    pub fn create() -> (m: Self)
        ensures
            m.wf(),
            m.lock_count() == 0,
            m.groups() == seq![Seq::<usize>::empty()],
            m.entity_set().map() == Map::<usize, usize>::empty(),
            m.storages().map().dom() == set![0usize],
            m.storage(0)@.entities == Seq::<Entity>::empty(),
            m.keys() == Seq::<Seq<(usize, SparseModel<LockState>)>>::empty(),
    {
        let cgmgr = ComponentGroupManager::create();
        let null_gid = cgmgr.get_null_group_id();
        let null_storage = ArchetypeStorage::create(
            &ComponentTypeManager::create(),
            &ComponentGroup::create(),
        ).unwrap();
        let mut storages: SparseSet<ComponentGroupId, ArchetypeStorage> = SparseSet::create();
        proof {
            law_insert_fresh(storages@, null_gid, null_storage);
        }
        storages.insert(null_gid, null_storage);
        let m = ArchetypeManager {
            lock_count: 0,
            storages,
            entity_set: SparseSet::create(),
            cgmgr,
            akmgr: ArchetypeAccessKeyManager::create(),
        };
        proof {
            assert(m.storages@.map().dom() =~= set![0usize]);
            assert(m.storages@.dense[0] == (0usize, null_storage));
            reveal(entities_stored);
            assert(entities_stored(m.entity_set@, m.storages@));
        }
        m
    }

    /// Refuses changes while accesses hold column locks.
    fn yeet_locked(&self) -> (r: Result<()>)
        ensures
            r is Ok <==> self.lock_count() == 0,
            r is Err ==> r == Err::<(), RuntimeError>(RuntimeError::ArchetypeStorageLocked),
    {
        if self.lock_count == 0 {
            Ok(())
        } else {
            Err(RuntimeError::ArchetypeStorageLocked)
        }
    }

    /// Registers `q` under a new access key. Refused while locks are held.
    pub fn create_archetype_access_key(&mut self, q: ComponentGroupQuery) -> (r: Result<usize>)
        requires
            old(self).wf(),
        ensures
            final(self).wf(),
            r is Ok <==> old(self).lock_count() == 0,
            r matches Ok(akid) ==> {
                &&& akid == old(self).keys().len()
                &&& final(self).keys() == old(self).keys().push(Seq::empty())
                &&& final(self).key_accesses() == old(self).key_accesses().push(q.accesses())
                &&& final(self).key_filters() == old(self).key_filters().push(q.filters())
                &&& final(self).storages() == old(self).storages()
                &&& final(self).entity_set() == old(self).entity_set()
                &&& final(self).groups() == old(self).groups()
                &&& final(self).lock_count() == old(self).lock_count()
            },
            r is Err ==> *final(self) == *old(self) && r == Err::<usize, RuntimeError>(
                RuntimeError::ArchetypeStorageLocked,
            ),
    {
        match self.yeet_locked() {
            Ok(()) => {},
            Err(e) => {
                return Err(e);
            },
        }
        let ghost before = *self;
        let akid = self.akmgr.register(q);
        proof {
            assert forall|i: int, j: int|
                0 <= i < self.keys().len() && 0 <= j < self.keys()[i].len() implies {
                    &&& (#[trigger] self.keys()[i][j]).0 < self.cgmgr@.len()
                    &&& forall|d: int|
                        0 <= d < self.keys()[i][j].1.dense.len() ==> self.cgmgr@[self.keys()[i][j].0 as int].contains(
                            #[trigger] self.keys()[i][j].1.dense[d].0,
                        )
                } by {
                assert(i < before.keys().len());
                assert(self.keys()[i] == before.keys()[i]);
            }
        }
        Ok(akid)
    }

    /// The number of groups that match the query of `akid`.
    pub fn get_access_count(&self, akid: usize) -> (r: usize)
        requires
            akid < self.keys().len(),
        ensures
            r == self.keys()[akid as int].len(),
    {
        self.akmgr.get(akid).unwrap().get_count()
    }
}

impl ArchetypeManager {
    /// After one storage was replaced by a well-formed one with the same types,
    /// the manager is still well formed.
    proof fn lemma_storage_replaced(before: &ArchetypeManager, after: &ArchetypeManager, gid: usize)
        requires
            before.wf(),
            before.storages@.contains(gid),
            after.storages@ == before.storages@.with_value(gid, after.storage(gid)),
            after.storage(gid).wf(),
            after.storage(gid)@.tys == before.storage(gid)@.tys,
            after.entity_set == before.entity_set,
            after.cgmgr == before.cgmgr,
            after.akmgr == before.akmgr,
            forall|f: Entity|
                before.storage(gid)@.has_entity(f) && !after.storage(gid)@.has_entity(f) ==> !(
                after.entity_set@.contains(f.id) && after.entity_set@.value(f.id) == gid),
        ensures
            after.wf(),
    {
        law_with_value(before.storages@, gid, after.storage(gid));
        reveal(entities_stored);
        assert forall|id: usize| #[trigger] after.entity_set@.contains(id) implies after.storages@.value(
            after.entity_set@.value(id),
        )@.has_entity(Entity { id }) by {
            let g = after.entity_set@.value(id);
            before.lemma_entity_group(id);
            if g != gid {
                assert(after.storages@.lookup(g) == before.storages@.lookup(g));
            } else {
                assert(before.storage(gid)@.has_entity(Entity { id }));
            }
        }
        let sm = after.storages@;
        let d0 = before.storages@.slot(gid)->0 as int;
        assert forall|d: int| 0 <= d < sm.dense.len() implies {
            &&& (#[trigger] sm.dense[d]).0 < after.cgmgr@.len()
            &&& sm.dense[d].1.wf()
            &&& sm.dense[d].1@.tys == after.cgmgr@[sm.dense[d].0 as int]
        } by {
            if d != d0 {
                assert(sm.dense[d] == before.storages@.dense[d]);
            }
        }
        assert(after.keys() == before.keys());
        assert forall|g: usize| g < after.cgmgr@.len() implies #[trigger] sm.contains(g) by {
            assert(before.storages@.contains(g));
            assert(sm.slot(g) == before.storages@.slot(g));
        }
    }

    /// Changing only where entities are recorded keeps the manager well formed.
    proof fn lemma_entity_set_changed(before: &ArchetypeManager, after: &ArchetypeManager)
        requires
            before.wf(),
            after.storages@ == before.storages@,
            after.cgmgr == before.cgmgr,
            after.akmgr == before.akmgr,
            after.entity_set@.keys_in_range(),
            after.entity_set@.wf(),
            forall|d: int|
                0 <= d < after.entity_set@.dense.len() ==> (#[trigger] after.entity_set@.dense[d]).1
                    < after.cgmgr@.len(),
            entities_stored(after.entity_set@, after.storages@),
        ensures
            after.wf(),
    {
        assert(after.keys() == before.keys());
        assert(after.storages@ == before.storages@);
    }

    /// Stores `entity`, without components, in the storage of the empty group.
    pub fn insert_entity(&mut self, entity: Entity) -> (r: Result<()>)
        requires
            old(self).wf(),
            entity.id < usize::MAX,
            old(self).entity_set().dense.len() < usize::MAX,
        ensures
            final(self).wf(),
            final(self).groups() == old(self).groups(),
            final(self).keys() == old(self).keys(),
            final(self).key_accesses() == old(self).key_accesses(),
            final(self).key_filters() == old(self).key_filters(),
            final(self).lock_count() == old(self).lock_count(),
            old(self).lock_count() != 0 ==> r == Err::<(), RuntimeError>(
                RuntimeError::ArchetypeStorageLocked,
            ) && *final(self) == *old(self),
            old(self).lock_count() == 0 && old(self).entity_set().contains(entity.id) ==> r == Err::<
                (),
                RuntimeError,
            >(RuntimeError::BadEntity { e: entity }) && *final(self) == *old(self),
            old(self).lock_count() == 0 && !old(self).entity_set().contains(entity.id) ==> {
                &&& final(self).entity_set() == old(self).entity_set().insert(entity.id, 0)
                &&& old(self).storage(0)@.has_entity(entity) ==> r == Err::<(), RuntimeError>(
                    RuntimeError::BadEntity { e: entity },
                ) && final(self).storages() == old(self).storages()
                &&& !old(self).storage(0)@.has_entity(entity) ==> r is Ok && final(self).storages()
                    == old(self).storages().with_value(0, final(self).storage(0))
                    && final(self).storage(0)@ == super::storage::inserted_entity(old(self).storage(0)@, entity)
            },
    {
        match self.yeet_locked() {
            Ok(()) => {},
            Err(e) => {
                return Err(e);
            },
        }
        if self.entity_set.get(entity.id()).is_some() {
            return Err(RuntimeError::BadEntity { e: entity });
        }
        let null_gid = self.cgmgr.get_null_group_id();
        proof {
            lemma_keys_in_range(self.entity_set@, entity.id, null_gid);
            self.lemma_storage(0);
            assert(self.storage(0)@.pending.len() == 0) by {
                if self.storage(0)@.pending.len() > 0 {
                    assert(self.storage(0)@.pending.contains(self.storage(0)@.pending[0]));
                    self.storage(0).lemma_pending_is_type(self.storage(0)@.pending[0]);
                }
            }
        }
        let ghost before = *self;
        let storage = self.storages.get_mut(null_gid).unwrap();
        let done = match storage.insert(entity) {
            Ok(insert) => {
                proof {
                    assert(storage@.pending =~= Seq::<usize>::empty());
                }
                let done = insert.done(storage);
                proof {
                    law_with_value(before.storages@, 0, *storage);
                    assert(self.storage(0) == *storage);
                    let st0 = before.storage(0)@;
                    assert(storage@.entities == st0.entities.push(entity));
                    assert forall|f: Entity| st0.has_entity(f) implies self.storage(0)@.has_entity(f) by {
                        let i = choose|i: int| 0 <= i < st0.entities.len() && st0.entities[i] == f;
                        assert(self.storage(0)@.entities[i] == f);
                    }
                    assert(self.storage(0)@.entities[st0.entities.len() as int] == entity);
                    ArchetypeManager::lemma_storage_replaced(&before, self, 0);
                }
                done
            },
            Err(e) => {
                proof {
                    lemma_with_same_value(before.storages@, 0);
                    law_with_value(before.storages@, 0, *storage);
                    assert(self.storage(0) == *storage);
                    ArchetypeManager::lemma_storage_replaced(&before, self, 0);
                }
                Err(e)
            },
        };
        proof {
            assert(self.storage(0)@.has_entity(entity));
        }
        let ghost before_set = *self;
        self.entity_set.insert(entity.id(), null_gid);
        proof {
            law_insert_fresh(before_set.entity_set@, entity.id, null_gid);
            assert forall|d: int| 0 <= d < self.entity_set@.dense.len() implies (#[trigger] self.entity_set@.dense[d]).1
                < self.cgmgr@.len() by {
                if d < before_set.entity_set@.dense.len() {
                    assert(self.entity_set@.dense[d] == before_set.entity_set@.dense[d]);
                }
            }
            reveal(entities_stored);
            assert forall|id: usize| #[trigger] self.entity_set@.contains(id) implies self.storages@.value(
                self.entity_set@.value(id),
            )@.has_entity(Entity { id }) by {
                if id != entity.id {
                    assert(self.entity_set@.map().contains_key(id));
                    assert(before_set.entity_set@.map().contains_key(id));
                    assert(before_set.entity_set@.contains(id));
                    assert(self.entity_set@.value(id) == before_set.entity_set@.value(id)) by {
                        assert(self.entity_set@.map()[id] == before_set.entity_set@.map()[id]);
                    }
                } else {
                    assert(self.entity_set@.value(id) == 0) by {
                        assert(self.entity_set@.map()[id] == 0);
                    }
                }
            }
            ArchetypeManager::lemma_entity_set_changed(&before_set, self);
        }
        done
    }

    /// Drops `entity` from the storage that holds it.
    pub fn remove_entity(&mut self, entity: Entity) -> (r: Result<()>)
        requires
            old(self).wf(),
            old(self).entity_set().contains(entity.id) ==> super::storage::removable_entity(
                old(self).storage(old(self).entity_set().value(entity.id))@,
                entity,
            ),
        ensures
            final(self).wf(),
            final(self).groups() == old(self).groups(),
            final(self).keys() == old(self).keys(),
            final(self).key_accesses() == old(self).key_accesses(),
            final(self).key_filters() == old(self).key_filters(),
            final(self).lock_count() == old(self).lock_count(),
            old(self).lock_count() != 0 ==> r == Err::<(), RuntimeError>(
                RuntimeError::ArchetypeStorageLocked,
            ) && *final(self) == *old(self),
            old(self).lock_count() == 0 && !old(self).entity_set().contains(entity.id) ==> r == Err::<
                (),
                RuntimeError,
            >(RuntimeError::BadEntity { e: entity }) && *final(self) == *old(self),
            old(self).lock_count() == 0 && old(self).entity_set().contains(entity.id) ==> {
                let gid = old(self).entity_set().value(entity.id);
                &&& r is Ok
                &&& final(self).entity_set() == old(self).entity_set().remove(entity.id)
                &&& final(self).storages() == old(self).storages().with_value(gid, final(self).storage(gid))
                &&& final(self).storage(gid)@ == super::storage::removed_entity(old(self).storage(gid)@, entity)
            },
    {
        match self.yeet_locked() {
            Ok(()) => {},
            Err(e) => {
                return Err(e);
            },
        }
        let locator = match self.entity_set.get(entity.id()) {
            Some(l) => *l,
            None => {
                return Err(RuntimeError::BadEntity { e: entity });
            },
        };
        proof {
            self.lemma_entity_group(entity.id);
            self.lemma_storage(locator);
            self.lemma_recorded_is_stored(entity.id);
        }
        proof {
            lemma_keys_in_range(self.entity_set@, entity.id, locator);
        }
        let ghost before_set = *self;
        self.entity_set.remove(entity.id());
        proof {
            crate::data::sparse::law_remove_keeps_wf(before_set.entity_set@, entity.id);
            crate::data::sparse::law_remove(before_set.entity_set@, entity.id);
            let od = before_set.entity_set@.dense;
            assert forall|d: int| 0 <= d < self.entity_set@.dense.len() implies (#[trigger] self.entity_set@.dense[d]).1
                < self.cgmgr@.len() by {
                let dd = before_set.entity_set@.slot(entity.id)->0 as int;
                if d == dd {
                    assert(self.entity_set@.dense[d] == od[od.len() - 1]);
                } else {
                    assert(self.entity_set@.dense[d] == od[d]);
                }
            }
            reveal(entities_stored);
            assert forall|id: usize| #[trigger] self.entity_set@.contains(id) implies self.storages@.value(
                self.entity_set@.value(id),
            )@.has_entity(Entity { id }) by {
                assert(self.entity_set@.map().contains_key(id));
                assert(before_set.entity_set@.map().contains_key(id));
                assert(self.entity_set@.map()[id] == before_set.entity_set@.map()[id]);
            }
            ArchetypeManager::lemma_entity_set_changed(&before_set, self);
            self.lemma_storage(locator);
        }
        let ghost before = *self;
        let storage = self.storages.get_mut(locator).unwrap();
        let res = storage.remove(entity);
        assert(res is Ok);
        proof {
            law_with_value(before.storages@, locator, *storage);
            assert(self.storage(locator) == *storage);
            assert(!self.entity_set@.contains(entity.id)) by {
                assert(!self.entity_set@.map().contains_key(entity.id));
            }
            assert forall|f: Entity|
                before.storage(locator)@.has_entity(f) && !self.storage(locator)@.has_entity(f) implies !(
                self.entity_set@.contains(f.id) && self.entity_set@.value(f.id) == locator) by {
                if f != entity {
                    super::storage::lemma_removed_keeps_entities(before.storage(locator)@, entity, f);
                }
            }
            ArchetypeManager::lemma_storage_replaced(&before, self, locator);
        }
        Ok(())
    }

    /// The component types of the group that holds `entity`, if it is recorded.
    pub fn entity_types(&self, entity: Entity) -> (r: Option<&Vec<ComponentTypeId>>)
        requires
            self.wf(),
        ensures
            r is Some <==> self.entity_set().contains(entity.id),
            r matches Some(tys) ==> tys@ == self.groups()[self.entity_set().value(entity.id) as int],
    {
        match self.entity_set.get(entity.id()) {
            Some(gid) => {
                proof {
                    self.lemma_entity_group(entity.id);
                }
                match self.cgmgr.get(*gid) {
                    Ok(g) => Some(g.get()),
                    Err(_) => None,
                }
            },
            None => None,
        }
    }

    /// The bytes of `entity`'s component of type `cty`, from the first
    /// storage that holds both.
    pub fn find_component(&self, cty: ComponentTypeId, entity: Entity) -> (r: &[u8])
        requires
            self.wf(),
            exists|d: int|
                0 <= d < self.storages().dense.len() && (#[trigger] self.storages().dense[d]).1@.has_entity(entity)
                    && self.storages().dense[d].1@.has_ty(cty),
            forall|d: int|
                0 <= d < self.storages().dense.len() && (#[trigger] self.storages().dense[d]).1@.has_entity(entity)
                    && self.storages().dense[d].1@.has_ty(cty) && (forall|e: int|
                    0 <= e < d ==> !((#[trigger] self.storages().dense[e]).1@.has_entity(entity)
                        && self.storages().dense[e].1@.has_ty(cty))) ==> {
                    let m = self.storages().dense[d].1@;
                    m.column(entity) < m.cols[m.row(cty)].len()
                },
        ensures
            exists|d: int|
                0 <= d < self.storages().dense.len() && {
                    let m = (#[trigger] self.storages().dense[d]).1@;
                    &&& m.has_entity(entity)
                    &&& m.has_ty(cty)
                    &&& forall|e: int|
                        0 <= e < d ==> !((#[trigger] self.storages().dense[e]).1@.has_entity(entity)
                            && self.storages().dense[e].1@.has_ty(cty))
                    &&& r@ == m.cols[m.row(cty)][m.column(entity)]
                },
    {
        let dense = self.storages.get_dense();
        let mut d: usize = 0;
        while d < dense.len()
            invariant
                self.wf(),
                dense@ == self.storages().dense,
                d <= dense@.len(),
                exists|d: int|
                    0 <= d < self.storages().dense.len() && (#[trigger] self.storages().dense[d]).1@.has_entity(entity)
                        && self.storages().dense[d].1@.has_ty(cty),
                forall|d: int|
                    0 <= d < self.storages().dense.len() && (#[trigger] self.storages().dense[d]).1@.has_entity(entity)
                        && self.storages().dense[d].1@.has_ty(cty) && (forall|e: int|
                        0 <= e < d ==> !((#[trigger] self.storages().dense[e]).1@.has_entity(entity)
                            && self.storages().dense[e].1@.has_ty(cty))) ==> {
                        let m = self.storages().dense[d].1@;
                        m.column(entity) < m.cols[m.row(cty)].len()
                    },
                forall|e: int|
                    0 <= e < d ==> !((#[trigger] self.storages().dense[e]).1@.has_entity(entity)
                        && self.storages().dense[e].1@.has_ty(cty)),
            decreases dense@.len() - d,
        {
            let storage = &dense[d].1;
            proof {
                assert(self.storages().dense[d as int].1.wf());
            }
            match storage.get(entity, cty) {
                Ok(bytes) => {
                    return bytes;
                },
                Err(_) => {},
            }
            d = d + 1;
        }
        proof {
            let w = choose|w: int|
                0 <= w < self.storages().dense.len() && (#[trigger] self.storages().dense[w]).1@.has_entity(entity)
                    && self.storages().dense[w].1@.has_ty(cty);
            assert(w < d);
        }
        dense[0].1.get(entity, cty).unwrap()
    }
}

impl ArchetypeManager {
    /// Registers `group`, creates its storage and offers it to the access
    /// keys. Refuses a group that is registered already.
    fn create_gid(&mut self, group: &ComponentGroup, ctymgr: &ComponentTypeManager) -> (r: Result<ComponentGroupId>)
        requires
            old(self).wf(),
            ctymgr.wf(),
            !old(self).groups().contains(group@) ==> forall|i: int|
                0 <= i < group@.len() ==> #[trigger] group@[i] < ctymgr.entries().len(),
        ensures
            final(self).wf(),
            final(self).lock_count() == old(self).lock_count(),
            final(self).entity_set() == old(self).entity_set(),
            final(self).key_accesses() == old(self).key_accesses(),
            final(self).key_filters() == old(self).key_filters(),
            old(self).groups().contains(group@) ==> r == Err::<ComponentGroupId, RuntimeError>(
                RuntimeError::BadComponentGroup { gid: old(self).groups().index_of(group@) as usize },
            ) && *final(self) == *old(self),
            !old(self).groups().contains(group@) ==> {
                &&& r == Ok::<ComponentGroupId, RuntimeError>(old(self).groups().len() as usize)
                &&& final(self).groups() == old(self).groups().push(group@)
                &&& final(self).storages() == old(self).storages().insert(
                    old(self).groups().len() as usize,
                    final(self).storage(old(self).groups().len() as usize),
                )
                &&& final(self).storage(old(self).groups().len() as usize)@ == super::storage::empty_storage(
                    group@,
                    ctymgr.entries(),
                )
                &&& final(self).keys() == super::access::updated_keys(
                    old(self).keys(),
                    old(self).key_accesses(),
                    old(self).key_filters(),
                    old(self).groups().len() as usize,
                    group@,
                )
            },
    {
        let ghost before = *self;
        let gid = match self.cgmgr.register(group.clone()) {
            Ok(gid) => gid,
            Err(e) => {
                return Err(e);
            },
        };
        let storage = ArchetypeStorage::create(ctymgr, group).unwrap();
        proof {
            assert forall|k: usize| #[trigger] before.storages@.slot(k) is Some implies k < gid by {
                let d = before.storages@.slot(k)->0 as int;
                assert(before.storages@.dense[d].0 == k);
            }
            assert(!before.storages@.contains(gid));
            assert(before.storages@.dense.len() < usize::MAX);
            law_insert_fresh(before.storages@, gid, storage);
            lemma_keys_in_range(before.storages@, gid, storage);
        }
        self.storages.insert(gid, storage);
        proof {
            assert forall|i: int, j: int|
                0 <= i < self.akmgr.key_accesses().len() && 0 <= j < self.akmgr.key_accesses()[i].len()
                    && group@.contains(#[trigger] self.akmgr.key_accesses()[i][j].0) implies self.akmgr.key_accesses()[i][j].0
                    < usize::MAX by {
                let k = group@.index_of(self.akmgr.key_accesses()[i][j].0);
                ctymgr.lemma_len_fits();
                assert(group@[k] < ctymgr.entries().len());
            }
        }
        self.akmgr.update(gid, group);
        proof {
            assert(self.storage(gid) == storage) by {
                assert(self.storages@.map()[gid] == storage);
            }
            self.lemma_after_update(&before, gid, group@);
        }
        Ok(gid)
    }

    /// A new group with its storage and the keys' new records keep the
    /// manager well formed.
    proof fn lemma_after_update(&self, before: &ArchetypeManager, gid: usize, group: Seq<usize>)
        requires
            before.wf(),
            gid == before.cgmgr@.len(),
            self.cgmgr.wf(),
            self.cgmgr@ == before.cgmgr@.push(group),
            self.storages@ == before.storages@.insert(gid, self.storage(gid)),
            self.storages@.wf(),
            self.storages@.keys_in_range(),
            self.storages@.map() == before.storages@.map().insert(gid, self.storage(gid)),
            self.storage(gid).wf(),
            self.storage(gid)@.tys == group,
            self.entity_set == before.entity_set,
            self.keys() == super::access::updated_keys(
                before.keys(),
                before.key_accesses(),
                before.key_filters(),
                gid,
                group,
            ),
        ensures
            self.wf(),
    {
        let sm = self.storages@;
        let mm = before.storages@;
        let st = self.storage(gid);
        assert(sm.dense == mm.dense.push((gid, st)));
        reveal(entities_stored);
        assert forall|id: usize| #[trigger] self.entity_set@.contains(id) implies sm.value(
            self.entity_set@.value(id),
        )@.has_entity(Entity { id }) by {
            before.lemma_entity_group(id);
            let g = self.entity_set@.value(id);
            assert(mm.map().contains_key(g));
            assert(sm.map()[g] == mm.map()[g]);
        }
        assert forall|g: usize| g < self.cgmgr@.len() implies #[trigger] sm.contains(g) by {
            if g < gid {
                assert(mm.contains(g));
                assert(mm.map().dom().contains(g));
            }
            assert(sm.map().dom().contains(g));
        }
        assert forall|d: int| 0 <= d < sm.dense.len() implies {
            &&& (#[trigger] sm.dense[d]).0 < self.cgmgr@.len()
            &&& sm.dense[d].1.wf()
            &&& sm.dense[d].1@.tys == self.cgmgr@[sm.dense[d].0 as int]
        } by {
            if d < mm.dense.len() {
                assert(sm.dense[d] == mm.dense[d]);
                assert(self.cgmgr@[sm.dense[d].0 as int] == before.cgmgr@[sm.dense[d].0 as int]);
            }
        }
        assert forall|d: int| 0 <= d < self.entity_set@.dense.len() implies (#[trigger] self.entity_set@.dense[d]).1
            < self.cgmgr@.len() by {
            assert(before.entity_set@.dense[d].1 < before.cgmgr@.len());
        }
        assert forall|i: int, j: int|
            0 <= i < self.keys().len() && 0 <= j < self.keys()[i].len() implies {
                &&& (#[trigger] self.keys()[i][j]).0 < self.cgmgr@.len()
                &&& forall|d: int|
                    0 <= d < self.keys()[i][j].1.dense.len() ==> self.cgmgr@[self.keys()[i][j].0 as int].contains(
                        #[trigger] self.keys()[i][j].1.dense[d].0,
                    )
            } by {
            let old_key = before.keys()[i];
            if j < old_key.len() {
                assert(self.keys()[i][j] == old_key[j]);
                assert(self.cgmgr@[old_key[j].0 as int] == before.cgmgr@[old_key[j].0 as int]);
            } else {
                let acc = before.key_accesses()[i];
                assert(self.keys()[i][j] == (gid, inserted_all(reached(group, acc))));
                super::access::lemma_inserted_all_dense(reached(group, acc));
                super::access::lemma_reached_in_group(group, acc);
                assert forall|d: int| 0 <= d < self.keys()[i][j].1.dense.len() implies group.contains(
                    #[trigger] self.keys()[i][j].1.dense[d].0) by {
                    assert(self.keys()[i][j].1.dense[d] == reached(group, acc)[d]);
                }
            }
        }
    }
}

/// The lock the locks `lm` ask for on the column of type `cty`.
pub open spec fn wanted(lm: SparseModel<LockState>, cty: usize) -> Option<LockState> {
    lm.lookup(cty)
}

/// Every lock `lm` asks for on the columns (typed `tys`, in states `locks`)
/// among the first `k` can be had now.
pub open spec fn obtainable(locks: Seq<u8>, tys: Seq<usize>, lm: SparseModel<LockState>, k: int) -> bool {
    forall|i: int|
        0 <= i < k ==> (#[trigger] wanted(lm, tys[i])) is Some ==> obtain(
            locks[i],
            wanted(lm, tys[i])->0,
        ).1
}

/// The column lock states after the locks `lm` asks for on the first `k` columns were taken.
pub open spec fn taken(locks: Seq<u8>, tys: Seq<usize>, lm: SparseModel<LockState>, k: int) -> Seq<u8> {
    Seq::new(
        locks.len(),
        |i: int|
            if i < k && wanted(lm, tys[i]) is Some {
                obtain(locks[i], wanted(lm, tys[i])->0).0
            } else {
                locks[i]
            },
    )
}

/// How many of the first `k` columns `lm` asks a lock on.
pub open spec fn wanted_count(tys: Seq<usize>, lm: SparseModel<LockState>, k: int) -> nat
    decreases k,
{
    if k <= 0 {
        0
    } else {
        wanted_count(tys, lm, k - 1) + if wanted(lm, tys[k - 1]) is Some {
            1nat
        } else {
            0nat
        }
    }
}

/// The column lock states after releasing, in order, the locks named by
/// the first `k` entries.
pub open spec fn released_all(locks: Seq<u8>, tys: Seq<usize>, entries: Seq<(usize, LockState)>, k: int) -> Seq<u8>
    decreases k,
{
    if k <= 0 {
        locks
    } else {
        let before = released_all(locks, tys, entries, k - 1);
        let (cty, st) = entries[k - 1];
        let row = tys.index_of(cty);
        before.update(row, release(before[row], st))
    }
}

/// Replacing a value twice is replacing it once with the second value.
proof fn lemma_with_value_twice(m: SparseModel<ArchetypeStorage>, k: usize, a: ArchetypeStorage, b: ArchetypeStorage)
    requires
        m.contains(k),
    ensures
        m.with_value(k, a).with_value(k, b) == m.with_value(k, b),
{
    law_with_value(m, k, a);
    assert(m.with_value(k, a).with_value(k, b).dense =~= m.with_value(k, b).dense);
}

/// Counting up by `n` and then down by `n`, wrapping around, gives `c` back.
proof fn lemma_wrapping_round_trip(c: u32, n: nat)
    ensures
        wrapping_down(wrapping_up(c, n), n) == c,
{
    let m: int = 0x1_0000_0000;
    let x = (c as int + n) % m;
    lemma_mod_pos_bound(c as int + n, m);
    assert(wrapping_up(c, n) as int == x);
    lemma_add_mod_noop(c as int + n, -(n as int), m);
    lemma_add_mod_noop(x, -(n as int), m);
    lemma_mod_twice(c as int + n, m);
    lemma_small_mod(c as nat, m as nat);
}

/// With a well-formed lock set whose keys are among the distinct types
/// `tys`, the key at position `d` of the lock set is found at its own row,
/// and a row whose type the set asks a lock on is that of its key.
proof fn lemma_key_rows(tys: Seq<usize>, lm: SparseModel<LockState>, d: int)
    requires
        lm.wf(),
        tys.no_duplicates(),
        forall|e: int| 0 <= e < lm.dense.len() ==> tys.contains(#[trigger] lm.dense[e].0),
        0 <= d < lm.dense.len(),
    ensures
        0 <= tys.index_of(lm.dense[d].0) < tys.len(),
        tys[tys.index_of(lm.dense[d].0)] == lm.dense[d].0,
        wanted(lm, lm.dense[d].0) == Some(lm.dense[d].1),
        forall|e: int| 0 <= e < lm.dense.len() && tys.index_of(lm.dense[e].0) == tys.index_of(lm.dense[d].0) ==> e == d,
{
    assert(tys.contains(lm.dense[d].0));
    assert(lm.slot(lm.dense[d].0) == Some(d as usize));
    assert forall|e: int| 0 <= e < lm.dense.len() && tys.index_of(lm.dense[e].0) == tys.index_of(lm.dense[d].0) implies e == d by {
        assert(tys.contains(lm.dense[e].0));
        assert(lm.slot(lm.dense[e].0) == Some(e as usize));
    }
}

/// A type at row `r` that the lock set asks a lock on is the key at some
/// position of the lock set, found at row `r`.
proof fn lemma_wanted_row(tys: Seq<usize>, lm: SparseModel<LockState>, r: int) -> (d: int)
    requires
        lm.wf(),
        tys.no_duplicates(),
        0 <= r < tys.len(),
        wanted(lm, tys[r]) is Some,
    ensures
        0 <= d < lm.dense.len(),
        lm.dense[d].0 == tys[r],
        tys.index_of(lm.dense[d].0) == r,
{
    let d = lm.slot(tys[r])->0 as int;
    assert(tys.contains(tys[r]));
    let i = tys.index_of(tys[r]);
    assert(tys[i] == tys[r]);
    d
}

/// After the first `k` locks of the set were released, the rows they name
/// are back to their states before the locks were taken.
proof fn lemma_released_prefix(locks: Seq<u8>, tys: Seq<usize>, lm: SparseModel<LockState>, k: int)
    requires
        lm.wf(),
        locks.len() == tys.len(),
        tys.no_duplicates(),
        forall|e: int| 0 <= e < lm.dense.len() ==> tys.contains(#[trigger] lm.dense[e].0),
        obtainable(locks, tys, lm, tys.len() as int),
        0 <= k <= lm.dense.len(),
    ensures
        released_all(taken(locks, tys, lm, tys.len() as int), tys, lm.dense, k).len() == locks.len(),
        forall|r: int|
            0 <= r < locks.len() ==> #[trigger] released_all(taken(locks, tys, lm, tys.len() as int), tys, lm.dense, k)[r]
                == if exists|j: int| 0 <= j < k && tys.index_of(lm.dense[j].0) == r {
                    locks[r]
                } else {
                    taken(locks, tys, lm, tys.len() as int)[r]
                },
    decreases k,
{
    let t = taken(locks, tys, lm, tys.len() as int);
    if k > 0 {
        lemma_released_prefix(locks, tys, lm, k - 1);
        let before = released_all(t, tys, lm.dense, k - 1);
        let (key, st) = lm.dense[k - 1];
        let row = tys.index_of(key);
        lemma_key_rows(tys, lm, k - 1);
        assert(!(exists|j: int| 0 <= j < k - 1 && tys.index_of(lm.dense[j].0) == row));
        assert(wanted(lm, tys[row]) == Some(st));
        assert(obtain(locks[row], st).1);
        law_release_undoes_obtain(locks[row], st);
        assert(before[row] == t[row]);
        assert forall|r: int| 0 <= r < locks.len() implies #[trigger] released_all(t, tys, lm.dense, k)[r]
            == if exists|j: int| 0 <= j < k && tys.index_of(lm.dense[j].0) == r {
                locks[r]
            } else {
                t[r]
            } by {
            if r != row {
                if exists|j: int| 0 <= j < k && tys.index_of(lm.dense[j].0) == r {
                    let j = choose|j: int| 0 <= j < k && tys.index_of(lm.dense[j].0) == r;
                    assert(j < k - 1);
                }
            } else {
                assert(tys.index_of(lm.dense[k - 1].0) == r);
            }
        }
    }
}

/// The number of locks a set asks on the first `k` columns is the number of
/// its keys whose rows lie below `k`.
proof fn lemma_wanted_count(tys: Seq<usize>, lm: SparseModel<LockState>, k: int)
    requires
        lm.wf(),
        tys.no_duplicates(),
        forall|e: int| 0 <= e < lm.dense.len() ==> tys.contains(#[trigger] lm.dense[e].0),
        0 <= k <= tys.len(),
    ensures
        set_int_range(0, lm.dense.len() as int).filter(|d: int| tys.index_of(lm.dense[d].0) < k).finite(),
        wanted_count(tys, lm, k) == set_int_range(0, lm.dense.len() as int).filter(
            |d: int| tys.index_of(lm.dense[d].0) < k,
        ).len(),
    decreases k,
{
    let all = set_int_range(0, lm.dense.len() as int);
    lemma_int_range(0, lm.dense.len() as int);
    let below = all.filter(|d: int| tys.index_of(lm.dense[d].0) < k);
    all.lemma_len_filter(|d: int| tys.index_of(lm.dense[d].0) < k);
    if k == 0 {
        assert forall|d: int| !below.contains(d) by {
            if 0 <= d < lm.dense.len() {
                lemma_key_rows(tys, lm, d);
            }
        }
        assert(below =~= Set::<int>::empty());
    } else {
        lemma_wanted_count(tys, lm, k - 1);
        let prev = all.filter(|d: int| tys.index_of(lm.dense[d].0) < k - 1);
        if wanted(lm, tys[k - 1]) is Some {
            let d0 = lemma_wanted_row(tys, lm, k - 1);
            assert forall|d: int| below.contains(d) <==> #[trigger] prev.insert(d0).contains(d) by {
                if 0 <= d < lm.dense.len() {
                    lemma_key_rows(tys, lm, d);
                    lemma_key_rows(tys, lm, d0);
                }
            }
            assert(below =~= prev.insert(d0));
            assert(!prev.contains(d0));
        } else {
            assert forall|d: int| below.contains(d) <==> #[trigger] prev.contains(d) by {
                if 0 <= d < lm.dense.len() {
                    lemma_key_rows(tys, lm, d);
                }
            }
            assert(below =~= prev);
        }
    }
}

/// Releasing every lock of a lock set, in the order the set stores them,
/// after all of them were taken on a storage's columns, gives back the
/// columns' lock states; and counting them off gives back the lock count.
/// This is how `release_access` undoes a successful `try_access`, for a
/// lock set whose keys are distinct types of the storage.
pub proof fn law_release_undoes_access(locks: Seq<u8>, tys: Seq<usize>, lm: SparseModel<LockState>, count: u32)
    requires
        lm.wf(),
        locks.len() == tys.len(),
        tys.no_duplicates(),
        forall|d: int| 0 <= d < lm.dense.len() ==> tys.contains(#[trigger] lm.dense[d].0),
        obtainable(locks, tys, lm, tys.len() as int),
    ensures
        released_all(taken(locks, tys, lm, tys.len() as int), tys, lm.dense, lm.dense.len() as int) == locks,
        wrapping_down(wrapping_up(count, wanted_count(tys, lm, tys.len() as int)), lm.dense.len()) == count,
{
    let t = taken(locks, tys, lm, tys.len() as int);
    lemma_released_prefix(locks, tys, lm, lm.dense.len() as int);
    assert forall|r: int| 0 <= r < locks.len() implies #[trigger] released_all(t, tys, lm.dense, lm.dense.len() as int)[r]
        == locks[r] by {
        if !(exists|j: int| 0 <= j < lm.dense.len() && tys.index_of(lm.dense[j].0) == r) {
            if wanted(lm, tys[r]) is Some {
                let d = lemma_wanted_row(tys, lm, r);
                assert(tys.index_of(lm.dense[d].0) == r);
            }
        }
    }
    assert(released_all(t, tys, lm.dense, lm.dense.len() as int) =~= locks);
    lemma_wanted_count(tys, lm, tys.len() as int);
    let all = set_int_range(0, lm.dense.len() as int);
    let below = all.filter(|d: int| tys.index_of(lm.dense[d].0) < tys.len() as int);
    assert forall|d: int| #[trigger] all.contains(d) <==> below.contains(d) by {
        if 0 <= d < lm.dense.len() {
            lemma_key_rows(tys, lm, d);
        }
    }
    assert(below =~= all);
    lemma_int_range(0, lm.dense.len() as int);
    lemma_wrapping_round_trip(count, lm.dense.len());
}

/// While the locks of one access are held on a storage's columns, another
/// access that needs a lock on one of the same columns, where either of
/// them writes it, cannot be had: `try_access` refuses it.
pub proof fn law_write_access_excludes(
    locks: Seq<u8>,
    tys: Seq<usize>,
    held: SparseModel<LockState>,
    other: SparseModel<LockState>,
    r: int,
)
    requires
        locks.len() == tys.len(),
        0 <= r < tys.len(),
        obtainable(locks, tys, held, tys.len() as int),
        wanted(held, tys[r]) is Some,
        wanted(other, tys[r]) is Some,
        wanted(held, tys[r]) == Some(LockState::Exclusive) || wanted(other, tys[r]) == Some(
            LockState::Exclusive,
        ),
    ensures
        !obtainable(taken(locks, tys, held, tys.len() as int), tys, other, tys.len() as int),
{
    let t = taken(locks, tys, held, tys.len() as int);
    let h = wanted(held, tys[r])->0;
    let o = wanted(other, tys[r])->0;
    assert(obtain(locks[r], h).1);
    assert(t[r] == obtain(locks[r], h).0);
    if h == LockState::Exclusive {
        super::locker::law_exclusive_excludes(locks[r], o);
    } else {
        super::locker::law_shared_excludes_exclusive(locks[r]);
    }
    assert(!obtain(t[r], o).1);
}

/// `x` counted up by `n`, wrapping around at 2^32.
pub open spec fn wrapping_up(x: u32, n: nat) -> u32 {
    ((x as int + n) % 0x1_0000_0000) as u32
}

/// `x` counted down by `n`, wrapping around at 2^32.
pub open spec fn wrapping_down(x: u32, n: nat) -> u32 {
    ((x as int - n) % 0x1_0000_0000) as u32
}

impl ArchetypeManager {
    /// The group and locks that key `akid` records at position `idx`, or the
    /// error that naming them gets.
    pub open spec fn access_target(&self, akid: usize, idx: usize) -> core::result::Result<
        (usize, SparseModel<LockState>),
        RuntimeError,
    > {
        if akid >= self.keys().len() {
            Err(RuntimeError::BadArchetypeAccessKey { akid })
        } else if idx >= self.keys()[akid as int].len() {
            Err(
                RuntimeError::BadArchetypeManagerAccessIndex {
                    idx,
                    max: self.keys()[akid as int].len() as usize,
                },
            )
        } else if !self.storages().contains(self.keys()[akid as int][idx as int].0) {
            Err(RuntimeError::BadComponentGroup { gid: self.keys()[akid as int][idx as int].0 })
        } else {
            Ok(self.keys()[akid as int][idx as int])
        }
    }

    /// Takes, on the storage of the group that key `akid` records at `idx`,
    /// the locks its query needs, column by column in the group's order.
    /// When a lock cannot be had now, the locks this call took are released
    /// again and `None` is returned.
    pub fn try_access(&mut self, akid: usize, idx: usize) -> (r: Result<Option<ArchetypeAccess<'_>>>)
        requires
            old(self).wf(),
        ensures
            final(self).wf(),
            final(self).groups() == old(self).groups(),
            final(self).keys() == old(self).keys(),
            final(self).key_accesses() == old(self).key_accesses(),
            final(self).key_filters() == old(self).key_filters(),
            final(self).entity_set() == old(self).entity_set(),
            old(self).access_target(akid, idx) matches Err(e) ==> r == Err::<Option<ArchetypeAccess<'_>>, RuntimeError>(e)
                && *final(self) == *old(self),
            old(self).access_target(akid, idx) matches Ok((gid, lm)) ==> {
                let st = old(self).storage(gid)@;
                let n = st.tys.len() as int;
                &&& final(self).storages() == old(self).storages().with_value(gid, final(self).storage(gid))
                &&& obtainable(st.locks, st.tys, lm, n) ==> {
                    &&& final(self).storage(gid)@ == (StorageModel { locks: taken(st.locks, st.tys, lm, n), ..st })
                    &&& final(self).lock_count() == wrapping_up(old(self).lock_count(), wanted_count(st.tys, lm, n))
                    &&& r matches Ok(Some(a)) && a.index() == idx && *a.storage() == final(self).storage(gid)
                        && a.key() == final(self).keys()[akid as int]
                }
                &&& !obtainable(st.locks, st.tys, lm, n) ==> {
                    &&& final(self).storage(gid)@ == st
                    &&& final(self).lock_count() == old(self).lock_count()
                    &&& r matches Ok(None)
                }
            },
    {
        let key = match self.akmgr.get(akid) {
            Some(k) => k,
            None => {
                return Err(RuntimeError::BadArchetypeAccessKey { akid });
            },
        };
        let (gid, lock_map) = match key.get_access(idx) {
            Some(p) => (p.0, &p.1),
            None => {
                return Err(RuntimeError::BadArchetypeManagerAccessIndex { idx, max: key.get_count() });
            },
        };
        if self.storages.get(gid).is_none() {
            return Err(RuntimeError::BadComponentGroup { gid });
        }
        proof {
            self.lemma_storage(gid);
        }
        let ghost before = *self;
        let ghost st = self.storage(gid)@;
        let ghost lm = lock_map@;
        let group_ids = self.cgmgr.get(gid).unwrap().get();
        let n = group_ids.len();
        let mut i: usize = 0;
        proof {
            assert(before.keys()[akid as int][idx as int] == (gid, lm));
            assert(before.access_target(akid, idx) == Ok::<(usize, SparseModel<LockState>), RuntimeError>((gid, lm)));
            lemma_with_same_value(before.storages@, gid);
            assert(taken(st.locks, st.tys, lm, 0) =~= st.locks);
            assert(self.storage(gid)@ =~= (StorageModel { locks: taken(st.locks, st.tys, lm, 0), ..st }));
        }
        while i < n
            invariant
                *old(self) == before,
                old(self).access_target(akid, idx) == Ok::<(usize, SparseModel<LockState>), RuntimeError>((gid, lm)),
                before.wf(),
                self.wf(),
                group_ids@ == st.tys,
                n == st.tys.len(),
                i <= n,
                lm == lock_map@,
                self.cgmgr == before.cgmgr,
                self.akmgr == before.akmgr,
                self.entity_set == before.entity_set,
                before.storages@.contains(gid),
                st == before.storage(gid)@,
                self.storages@ == before.storages@.with_value(gid, self.storage(gid)),
                self.storage(gid)@ == (StorageModel { locks: taken(st.locks, st.tys, lm, i as int), ..st }),
                obtainable(st.locks, st.tys, lm, i as int),
                self.lock_count() == wrapping_up(before.lock_count(), wanted_count(st.tys, lm, i as int)),
            decreases n - i,
        {
            let cty = group_ids[i];
            match lock_map.get(cty) {
                Some(state) => {
                    let state = *state;
                    let ghost s_before = *self;
                    proof {
                        self.lemma_storage(gid);
                        self.storage(gid).lemma_row_of(i as int);
                        assert(wanted(lm, st.tys[i as int]) == Some(state));
                    }
                    let storage = self.storages.get_mut(gid).unwrap();
                    let got = storage.lock_component(cty, state);
                    proof {
                        ArchetypeManager::lemma_storage_replaced(&s_before, self, gid);
                        lemma_with_value_twice(before.storages@, gid, s_before.storage(gid), self.storage(gid));
                    }
                    match got {
                        Ok(true) => {
                            self.lock_count = self.lock_count.wrapping_add(1);
                            proof {
                                assert(self.storage(gid)@.locks =~= taken(st.locks, st.tys, lm, i + 1));
                                assert(self.storage(gid)@ =~= (StorageModel { locks: taken(st.locks, st.tys, lm, i + 1), ..st }));
                            }
                        },
                        Ok(false) => {
                            proof {
                                assert(self.storage(gid)@.locks =~= s_before.storage(gid)@.locks);
                                assert(self.storage(gid)@ =~= s_before.storage(gid)@);
                                assert(!obtainable(st.locks, st.tys, lm, n as int));
                            }
                            let ghost s_mid = *self;
                            rollback(&mut self.storages, &mut self.lock_count, gid, lock_map, group_ids, i, Ghost(st), Ghost(before.lock_count));
                            proof {
                                assert(self.cgmgr == s_mid.cgmgr);
                                assert(self.akmgr == s_mid.akmgr);
                                ArchetypeManager::lemma_storage_replaced(&s_mid, self, gid);
                                lemma_with_value_twice(before.storages@, gid, s_mid.storage(gid), self.storage(gid));
                            }
                            return Ok(None);
                        },
                        Err(e) => {
                            proof {
                                assert(false);
                            }
                            return Err(e);
                        },
                    }
                },
                None => {
                    proof {
                        assert(self.storage(gid)@.locks =~= taken(st.locks, st.tys, lm, i + 1));
                    }
                },
            }
            i = i + 1;
        }
        let storage = self.storages.get(gid).unwrap();
        let key = self.akmgr.get(akid).unwrap();
        Ok(Some(ArchetypeAccess::create(idx, storage, key)))
    }
}

impl ArchetypeManager {
    /// Gives up, on the storage of the group that key `akid` records at
    /// `idx`, the locks its query holds there, in the order its lock set
    /// stores them, and counts each off. Ends what [`Self::try_access`] began.
    pub fn release_access(&mut self, akid: usize, idx: usize) -> (r: Result<()>)
        requires
            old(self).wf(),
        ensures
            final(self).wf(),
            final(self).groups() == old(self).groups(),
            final(self).keys() == old(self).keys(),
            final(self).key_accesses() == old(self).key_accesses(),
            final(self).key_filters() == old(self).key_filters(),
            final(self).entity_set() == old(self).entity_set(),
            old(self).access_target(akid, idx) matches Err(e) ==> r == Err::<(), RuntimeError>(e)
                && *final(self) == *old(self),
            old(self).access_target(akid, idx) matches Ok((gid, lm)) ==> {
                let st = old(self).storage(gid)@;
                &&& r is Ok
                &&& final(self).storages() == old(self).storages().with_value(gid, final(self).storage(gid))
                &&& final(self).storage(gid)@ == (StorageModel {
                    locks: released_all(st.locks, st.tys, lm.dense, lm.dense.len() as int),
                    ..st
                })
                &&& final(self).lock_count() == wrapping_down(old(self).lock_count(), lm.dense.len())
            },
    {
        let key = match self.akmgr.get(akid) {
            Some(k) => k,
            None => {
                return Err(RuntimeError::BadArchetypeAccessKey { akid });
            },
        };
        let (gid, lock_map) = match key.get_access(idx) {
            Some(p) => (p.0, &p.1),
            None => {
                return Err(RuntimeError::BadArchetypeManagerAccessIndex { idx, max: key.get_count() });
            },
        };
        if self.storages.get(gid).is_none() {
            return Err(RuntimeError::BadComponentGroup { gid });
        }
        proof {
            self.lemma_storage(gid);
        }
        let ghost before = *self;
        let ghost st = self.storage(gid)@;
        let ghost lm = lock_map@;
        let dense = lock_map.get_dense();
        let n = dense.len();
        let mut d: usize = 0;
        proof {
            assert(before.keys()[akid as int][idx as int] == (gid, lm));
            assert(before.access_target(akid, idx) == Ok::<(usize, SparseModel<LockState>), RuntimeError>((gid, lm)));
            lemma_with_same_value(before.storages@, gid);
            assert(self.storage(gid)@ =~= (StorageModel { locks: released_all(st.locks, st.tys, lm.dense, 0), ..st }));
        }
        while d < n
            invariant
                *old(self) == before,
                old(self).access_target(akid, idx) == Ok::<(usize, SparseModel<LockState>), RuntimeError>((gid, lm)),
                before.wf(),
                self.wf(),
                dense@ == lm.dense,
                n == lm.dense.len(),
                d <= n,
                forall|e: int| 0 <= e < n ==> st.tys.contains(#[trigger] lm.dense[e].0),
                self.cgmgr == before.cgmgr,
                self.akmgr == before.akmgr,
                self.entity_set == before.entity_set,
                before.storages@.contains(gid),
                st == before.storage(gid)@,
                self.storages@ == before.storages@.with_value(gid, self.storage(gid)),
                self.storage(gid)@ == (StorageModel { locks: released_all(st.locks, st.tys, lm.dense, d as int), ..st }),
                self.lock_count() == wrapping_down(before.lock_count(), d as nat),
            decreases n - d,
        {
            let cty = dense[d].0;
            let state = dense[d].1;
            let ghost s_before = *self;
            proof {
                self.lemma_storage(gid);
                law_with_value(before.storages@, gid, self.storage(gid));
                assert(self.storage(gid)@.has_ty(cty));
            }
            let storage = self.storages.get_mut(gid).unwrap();
            let res = storage.unlock_component(cty, state);
            assert(res is Ok);
            self.lock_count = self.lock_count.wrapping_sub(1);
            proof {
                ArchetypeManager::lemma_storage_replaced(&s_before, self, gid);
                lemma_with_value_twice(before.storages@, gid, s_before.storage(gid), self.storage(gid));
                assert(self.storage(gid)@ =~= (StorageModel { locks: released_all(st.locks, st.tys, lm.dense, d + 1), ..st }));
            }
            d = d + 1;
        }
        Ok(())
    }
}

/// Releases the locks taken on the first `i` columns of the storage of `gid`
/// and counts them off again.
fn rollback(
    storages: &mut SparseSet<ComponentGroupId, ArchetypeStorage>,
    lock_count: &mut u32,
    gid: usize,
    lock_map: &SparseSet<ComponentTypeId, LockState>,
    group_ids: &Vec<ComponentTypeId>,
    i: usize,
    Ghost(st): Ghost<StorageModel>,
    Ghost(count): Ghost<u32>,
)
    requires
        old(storages)@.contains(gid),
        old(storages)@.value(gid).wf(),
        group_ids@ == st.tys,
        i <= st.tys.len(),
        old(storages)@.value(gid)@ == (StorageModel { locks: taken(st.locks, st.tys, lock_map@, i as int), ..st }),
        obtainable(st.locks, st.tys, lock_map@, i as int),
        *old(lock_count) == wrapping_up(count, wanted_count(st.tys, lock_map@, i as int)),
    ensures
        final(storages)@ == old(storages)@.with_value(gid, final(storages)@.value(gid)),
        final(storages)@.value(gid).wf(),
        final(storages)@.value(gid)@ == st,
        *final(lock_count) == count,
{
    let ghost lm = lock_map@;
    let ghost start = *storages;
    let mut j: usize = i;
    proof {
        lemma_with_same_value(start@, gid);
    }
    while j > 0
        invariant
            start@.contains(gid),
            group_ids@ == st.tys,
            j <= i <= st.tys.len(),
            lm == lock_map@,
            storages@ == start@.with_value(gid, storages@.value(gid)),
            storages@.contains(gid),
            storages@.value(gid).wf(),
            storages@.value(gid)@ == (StorageModel { locks: taken(st.locks, st.tys, lm, j as int), ..st }),
            obtainable(st.locks, st.tys, lm, j as int),
            *lock_count == wrapping_up(count, wanted_count(st.tys, lm, j as int)),
        decreases j,
    {
        j = j - 1;
        let cty = group_ids[j];
        match lock_map.get(cty) {
            Some(state) => {
                let state = *state;
                let ghost s_before = *storages;
                proof {
                    law_with_value(start@, gid, storages@.value(gid));
                    storages@.value(gid).lemma_row_of(j as int);
                    assert(wanted(lm, st.tys[j as int]) == Some(state));
                    assert(obtain(st.locks[j as int], state).1);
                    law_release_undoes_obtain(st.locks[j as int], state);
                }
                let storage = storages.get_mut(gid).unwrap();
                let res = storage.unlock_component(cty, state);
                assert(res is Ok);
                *lock_count = lock_count.wrapping_sub(1);
                proof {
                    lemma_with_value_twice(start@, gid, s_before@.value(gid), storages@.value(gid));
                    law_with_value(s_before@, gid, storages@.value(gid));
                    assert(storages@.value(gid)@.locks =~= taken(st.locks, st.tys, lm, j as int));
                    assert(storages@.value(gid)@ =~= (StorageModel { locks: taken(st.locks, st.tys, lm, j as int), ..st }));
                }
            },
            None => {
                proof {
                    assert(taken(st.locks, st.tys, lm, j as int) =~= taken(st.locks, st.tys, lm, j + 1));
                }
            },
        }
    }
    proof {
        assert(taken(st.locks, st.tys, lm, 0) =~= st.locks);
        assert(storages@.value(gid)@ =~= st);
    }
}

/// The ids left after each of `removes` in turn lost its first occurrence,
/// or the first of `removes` that is missing when its turn comes.
pub open spec fn ids_removed(ids: Seq<usize>, removes: Seq<usize>) -> core::result::Result<Seq<usize>, usize>
    decreases removes.len(),
{
    if removes.len() == 0 {
        Ok(ids)
    } else {
        match ids_removed(ids, removes.drop_last()) {
            Err(c) => Err(c),
            Ok(s) => {
                let c = removes.last();
                if s.contains(c) {
                    Ok(swap_removed(s, first_index(s, c)))
                } else {
                    Err(c)
                }
            },
        }
    }
}

/// The ids of the group a transform gives an entity of group `ids`: its ids
/// without `removes`, with `inserts`, ascending. Or the id it fails on: a
/// removed id that is missing, or the smallest id that would occur twice.
pub open spec fn transformed_group(ids: Seq<usize>, removes: Seq<usize>, inserts: Seq<usize>) -> core::result::Result<Seq<usize>, usize> {
    match ids_removed(ids, removes) {
        Err(c) => Err(c),
        Ok(s) => {
            let sorted = sorted_ids(s + inserts);
            if exists|i: int| repeats_at(sorted, i) {
                Err(sorted[first_repeat(sorted)])
            } else {
                Ok(sorted)
            }
        },
    }
}

/// The id `group` has among `groups`, or gets when it is registered.
pub open spec fn group_id(groups: Seq<Seq<usize>>, group: Seq<usize>) -> usize {
    if groups.contains(group) {
        groups.index_of(group) as usize
    } else {
        groups.len() as usize
    }
}

/// The components of a transform, each as its type and bytes.
pub open spec fn insert_bytes(inserts: Seq<(usize, TVal)>) -> Seq<(usize, Seq<u8>)> {
    inserts.map_values(|p: (usize, TVal)| (p.0, p.1.bytes()))
}

/// `d` with `e` appended to its entities and every type pending.
pub open spec fn receiving(d: StorageModel, e: Entity) -> StorageModel {
    StorageModel { entities: d.entities.push(e), pending: d.pending + d.tys, ..d }
}

impl ArchetypeManager {
    /// The group of entity `e` after a transform with `inserts` and `removes`.
    pub open spec fn target_group(self, e: Entity, inserts: Seq<(usize, Seq<u8>)>, removes: Seq<usize>) -> core::result::Result<Seq<usize>, usize> {
        transformed_group(self.groups()[self.entity_set().value(e.id) as int], removes, insert_ids(inserts))
    }

    /// The storage a transform moves `e` into, as it is before the move.
    pub open spec fn target_storage(self, group: Seq<usize>, entries: Seq<ComponentTypeEntry>) -> StorageModel {
        if self.groups().contains(group) {
            self.storage(group_id(self.groups(), group))@
        } else {
            empty_storage(group, entries)
        }
    }

    /// Moving `e` with a transform does not panic: a new group has
    /// registered types only; when `e` really moves, its components can be
    /// moved, the inserted values hold a whole component of the destination,
    /// and after a complete move `e` can be removed from its old storage.
    pub open spec fn relocatable(self, e: Entity, inserts: Seq<(usize, Seq<u8>)>, removes: Seq<usize>, entries: Seq<ComponentTypeEntry>) -> bool {
        self.entity_set().contains(e.id) ==> (self.target_group(e, inserts, removes) matches Ok(group) ==> {
            let src = self.entity_set().value(e.id);
            let gid = group_id(self.groups(), group);
            let s = self.storage(src)@;
            let dst = self.target_storage(group, entries);
            let coli = s.column(e);
            let d0 = receiving(dst, e);
            let n = s.tys.len() as int;
            let (s1, d1) = moved(s, d0, coli, n as nat);
            let (d2, refused) = given_all(d1, inserts);
            &&& !self.groups().contains(group) ==> forall|i: int|
                0 <= i < group.len() ==> #[trigger] group[i] < entries.len()
            &&& gid != src && s.has_entity(e) && !dst.has_entity(e) ==> {
                &&& movable(s, d0, coli)
                &&& forall|i: int|
                    0 <= i < inserts.len() && #[trigger] insert_taken(d1, inserts, i) ==> inserts[i].1.len()
                        >= d1.sizes[d1.row(inserts[i].0)]
                &&& refused is None && d2.pending.len() == 0 ==> removable_entity(s1, e)
            }
        })
    }

    /// What moving `e` into the storage of its transformed group does, from
    /// `self` to `after`, with result `r`. The components of `e` whose types
    /// the new group has are copied over column by column (those of removed
    /// types stay behind), then `inserts` are given in turn, the first
    /// refused one stopping the move with its error. A complete move removes
    /// `e` and all its old components from its old storage and records it in
    /// the new group.
    pub open spec fn relocated(self, after: ArchetypeManager, e: Entity, inserts: Seq<(usize, Seq<u8>)>, removes: Seq<usize>, entries: Seq<ComponentTypeEntry>, r: Result<()>) -> bool {
        if !self.entity_set().contains(e.id) {
            r == Err::<(), RuntimeError>(RuntimeError::BadEntity { e }) && after == self
        } else {
            match self.target_group(e, inserts, removes) {
                Err(c) => r == Err::<(), RuntimeError>(RuntimeError::BadComponentType { ctyid: c }) && after == self,
                Ok(group) => {
                    let src = self.entity_set().value(e.id);
                    let fresh = !self.groups().contains(group);
                    let gid = group_id(self.groups(), group);
                    let s = self.storage(src)@;
                    let dst = self.target_storage(group, entries);
                    let coli = s.column(e);
                    let d0 = receiving(dst, e);
                    let n = s.tys.len() as int;
                    let (s1, d1) = moved(s, d0, coli, n as nat);
                    let (d2, refused) = given_all(d1, inserts);
                    if gid == src {
                        r == Err::<(), RuntimeError>(RuntimeError::BadEntity { e }) && after == self
                    } else {
                        &&& after.lock_count() == self.lock_count()
                        &&& after.key_accesses() == self.key_accesses()
                        &&& after.key_filters() == self.key_filters()
                        &&& after.groups() == if fresh { self.groups().push(group) } else { self.groups() }
                        &&& after.keys() == if fresh {
                            updated_keys(self.keys(), self.key_accesses(), self.key_filters(), gid, group)
                        } else {
                            self.keys()
                        }
                        &&& after.storages() == (if fresh {
                            self.storages().insert(gid, after.storage(gid))
                        } else {
                            self.storages().with_value(gid, after.storage(gid))
                        }).with_value(src, after.storage(src))
                        &&& !s.has_entity(e) || dst.has_entity(e) ==> {
                            &&& r == Err::<(), RuntimeError>(RuntimeError::BadEntity { e })
                            &&& after.entity_set() == self.entity_set()
                            &&& after.storage(src)@ == s
                            &&& after.storage(gid)@ == dst
                        }
                        &&& s.has_entity(e) && !dst.has_entity(e) ==> {
                            &&& after.storage(gid)@ == d2
                            &&& refused matches Some(c) ==> r == Err::<(), RuntimeError>(
                                RuntimeError::BadComponentType { ctyid: c },
                            ) && after.entity_set() == self.entity_set() && after.storage(src)@ == s1
                            &&& refused is None && d2.pending.len() > 0 ==> (r matches Err(
                                RuntimeError::ArchetypeStorageInsertIncomplete { missing },
                            ) && missing@ == d2.pending) && after.entity_set() == self.entity_set()
                                && after.storage(src)@ == s1
                            &&& refused is None && d2.pending.len() == 0 ==> r is Ok
                                && after.entity_set() == self.entity_set().with_value(e.id, gid)
                                && after.storage(src)@ == removed_entity(s1, e)
                        }
                    }
                },
            }
        }
    }
}

/// The first position of `c` is the position before which `c` does not occur.
/// An id found in `s` has a first position.
proof fn lemma_first_index_found(s: Seq<usize>, c: usize, k: int)
    requires
        0 <= k < s.len(),
        s[k] == c,
    ensures
        0 <= first_index(s, c) < s.len(),
        s[first_index(s, c)] == c,
    decreases k,
{
    if exists|j: int| 0 <= j < k && s[j] == c {
        let j = choose|j: int| 0 <= j < k && s[j] == c;
        lemma_first_index_found(s, c, j);
    } else {
        lemma_first_index_at(s, c, k);
    }
}

/// Swap-removing position `i` keeps the other ids and brings in none.
proof fn lemma_swap_removed_elems(s: Seq<usize>, i: int)
    requires
        0 <= i < s.len(),
    ensures
        forall|x: usize| swap_removed(s, i).contains(x) ==> s.contains(x),
        forall|x: usize| s.contains(x) && x != s[i] ==> swap_removed(s, i).contains(x),
{
    let t = swap_removed(s, i);
    let n = s.len();
    assert forall|x: usize| t.contains(x) implies s.contains(x) by {
        let j = choose|j: int| 0 <= j < t.len() && t[j] == x;
        if j == i {
            assert(s[n - 1] == x);
        } else {
            assert(s[j] == x);
        }
    }
    assert forall|x: usize| s.contains(x) && x != s[i] implies t.contains(x) by {
        let j = choose|j: int| 0 <= j < n && s[j] == x;
        if j == n - 1 {
            assert(t[i] == x);
        } else {
            assert(t[j] == x);
        }
    }
}

/// The ids left after the removes are among the ids, and every id that is
/// not removed is left.
proof fn lemma_ids_removed_contains(ids: Seq<usize>, removes: Seq<usize>)
    requires
        ids_removed(ids, removes) is Ok,
    ensures
        forall|x: usize| ids_removed(ids, removes)->Ok_0.contains(x) ==> ids.contains(x),
        forall|x: usize| ids.contains(x) && !removes.contains(x) ==> ids_removed(ids, removes)->Ok_0.contains(x),
    decreases removes.len(),
{
    if removes.len() > 0 {
        let rest = removes.drop_last();
        let c = removes.last();
        assert(ids_removed(ids, rest) is Ok);
        let s = ids_removed(ids, rest)->Ok_0;
        assert(s.contains(c));
        let k = choose|k: int| 0 <= k < s.len() && s[k] == c;
        lemma_first_index_found(s, c, k);
        let i = first_index(s, c);
        assert(ids_removed(ids, removes) == Ok::<Seq<usize>, usize>(swap_removed(s, i)));
        lemma_ids_removed_contains(ids, rest);
        lemma_swap_removed_elems(s, i);
        assert forall|x: usize| !removes.contains(x) implies !rest.contains(x) && x != c by {
            if rest.contains(x) {
                let j = choose|j: int| 0 <= j < rest.len() && rest[j] == x;
                assert(removes[j] == x);
            }
            assert(removes[removes.len() - 1] == c);
        }
    }
}

proof fn lemma_first_index_at(s: Seq<usize>, c: usize, w: int)
    requires
        0 <= w < s.len(),
        s[w] == c,
        forall|j: int| 0 <= j < w ==> s[j] != c,
    ensures
        first_index(s, c) == w,
{
    let f = first_index(s, c);
    assert(0 <= f < s.len() && s[f] == c && forall|j: int| 0 <= j < f ==> s[j] != c);
    if f < w {
    } else if f > w {
    }
}

/// One more removal: the first occurrence, at `w`, of the next id goes, or
/// the removal fails on that id when it is missing.
proof fn lemma_ids_removed_step(ids: Seq<usize>, removes: Seq<usize>, i: int, prev: Seq<usize>, w: int)
    requires
        0 <= i < removes.len(),
        ids_removed(ids, removes.take(i)) == Ok::<Seq<usize>, usize>(prev),
        prev.contains(removes[i]) ==> 0 <= w < prev.len() && prev[w] == removes[i] && forall|j: int|
            0 <= j < w ==> prev[j] != removes[i],
    ensures
        prev.contains(removes[i]) ==> ids_removed(ids, removes.take(i + 1)) == Ok::<Seq<usize>, usize>(
            prev.update(w, prev.last()).drop_last(),
        ),
        !prev.contains(removes[i]) ==> ids_removed(ids, removes.take(i + 1)) == Err::<Seq<usize>, usize>(
            removes[i],
        ),
{
    assert(removes.take(i + 1).drop_last() =~= removes.take(i));
    assert(removes.take(i + 1).last() == removes[i]);
    if prev.contains(removes[i]) {
        lemma_first_index_at(prev, removes[i], w);
    }
}

/// Once a removal fails, the later removals change nothing.
proof fn lemma_ids_removed_stops(ids: Seq<usize>, removes: Seq<usize>, k: int)
    requires
        0 <= k <= removes.len(),
        ids_removed(ids, removes.take(k)) is Err,
    ensures
        ids_removed(ids, removes) == ids_removed(ids, removes.take(k)),
    decreases removes.len() - k,
{
    if k < removes.len() {
        assert(removes.take(k + 1).drop_last() =~= removes.take(k));
        lemma_ids_removed_stops(ids, removes, k + 1);
    } else {
        assert(removes.take(k) =~= removes);
    }
}

/// Once a component is refused, the later ones change nothing.
proof fn lemma_given_all_stops(d: StorageModel, inserts: Seq<(usize, Seq<u8>)>, k: int)
    requires
        0 <= k <= inserts.len(),
        given_all(d, inserts.take(k)).1 is Some,
    ensures
        given_all(d, inserts) == given_all(d, inserts.take(k)),
    decreases inserts.len() - k,
{
    if k < inserts.len() {
        assert(inserts.take(k + 1).drop_last() =~= inserts.take(k));
        lemma_given_all_stops(d, inserts, k + 1);
    } else {
        assert(inserts.take(k) =~= inserts);
    }
}

impl ArchetypeManager {
    /// Computes the group of an entity of group `src` after the removes and
    /// inserts of `et`.
    fn transformed_group_of(&self, src: usize, et: &EntityTransform) -> (r: Result<ComponentGroup>)
        requires
            self.wf(),
            src < self.groups().len(),
        ensures
            match transformed_group(self.groups()[src as int], et.removes(), insert_ids(insert_bytes(et.inserts()))) {
                Ok(g) => r matches Ok(group) && group@ == g,
                Err(c) => r == Err::<ComponentGroup, RuntimeError>(RuntimeError::BadComponentType { ctyid: c }),
            },
    {
        let old_group = self.cgmgr.get(src).unwrap();
        let ghost ids = self.groups()[src as int];
        let mut gm = old_group.clone().modify();
        let removes = et.get_removes();
        let mut i: usize = 0;
        proof {
            assert(removes@.take(0) =~= Seq::<usize>::empty());
        }
        while i < removes.len()
            invariant
                i <= removes@.len(),
                removes@ == et.removes(),
                ids == self.groups()[src as int],
                ids_removed(ids, removes@.take(i as int)) == Ok::<Seq<usize>, usize>(gm@),
            decreases removes@.len() - i,
        {
            let ghost prev = gm@;
            let c = removes[i];
            match gm.remove(c) {
                Ok(()) => {
                    proof {
                        let w = choose|w: int|
                            0 <= w < prev.len() && prev[w] == c && (forall|j: int| 0 <= j < w ==> prev[j] != c)
                                && gm@ == prev.update(w, prev.last()).drop_last();
                        lemma_ids_removed_step(ids, removes@, i as int, prev, w);
                    }
                },
                Err(err) => {
                    proof {
                        lemma_ids_removed_step(ids, removes@, i as int, prev, 0);
                        lemma_ids_removed_stops(ids, removes@, i + 1);
                    }
                    return Err(err);
                },
            }
            i = i + 1;
        }
        proof {
            assert(removes@.take(i as int) =~= removes@);
        }
        let ghost base = gm@;
        let inserts = et.get_inserts();
        let ghost ins = insert_ids(insert_bytes(et.inserts()));
        let mut j: usize = 0;
        while j < inserts.len()
            invariant
                j <= inserts@.len(),
                inserts@ == et.inserts(),
                ins == insert_ids(insert_bytes(et.inserts())),
                gm@ == base + ins.take(j as int),
            decreases inserts@.len() - j,
        {
            gm.insert(inserts[j].0);
            j = j + 1;
            assert(gm@ =~= base + ins.take(j as int));
        }
        assert(ins.take(j as int) =~= ins);
        gm.build()
    }
}

/// Copies `e`'s components of the types `dst` has from `src` into `dst`,
/// column by column, gives `dst` the components `inserts` in turn and checks
/// that none is missing. A refused or missing component stops it with its
/// error, leaving what was done.
fn move_into(src: &mut ArchetypeStorage, dst: &mut ArchetypeStorage, e: Entity, inserts: &Vec<(ComponentTypeId, TVal)>) -> (r: Result<()>)
    requires
        old(src).wf(),
        old(dst).wf(),
        old(src)@.has_entity(e) && !old(dst)@.has_entity(e) ==> {
            let s = old(src)@;
            let d = old(dst)@;
            let d1 = moved(s, receiving(d, e), s.column(e), s.tys.len()).1;
            &&& movable(s, receiving(d, e), s.column(e))
            &&& forall|i: int|
                0 <= i < inserts@.len() && #[trigger] insert_taken(d1, insert_bytes(inserts@), i)
                    ==> inserts@[i].1.bytes().len() >= d1.sizes[d1.row(inserts@[i].0)]
        },
    ensures
        final(src).wf(),
        final(dst).wf(),
        final(src)@.tys == old(src)@.tys,
        final(dst)@.tys == old(dst)@.tys,
        final(src)@.entities == old(src)@.entities,
        forall|f: Entity| old(dst)@.has_entity(f) ==> final(dst)@.has_entity(f),
        !old(src)@.has_entity(e) || old(dst)@.has_entity(e) ==> r == Err::<(), RuntimeError>(
            RuntimeError::BadEntity { e },
        ) && final(src)@ == old(src)@ && final(dst)@ == old(dst)@,
        old(src)@.has_entity(e) && !old(dst)@.has_entity(e) ==> {
            let s = old(src)@;
            let coli = s.column(e);
            let d0 = receiving(old(dst)@, e);
            let n = s.tys.len() as int;
            let (s1, d1) = moved(s, d0, coli, n as nat);
            let (d2, refused) = given_all(d1, insert_bytes(inserts@));
            &&& {
                &&& final(src)@ == s1
                &&& final(dst)@ == d2
                &&& refused matches Some(c) ==> r == Err::<(), RuntimeError>(
                    RuntimeError::BadComponentType { ctyid: c },
                )
                &&& refused is None && d2.pending.len() > 0 ==> (r matches Err(
                    RuntimeError::ArchetypeStorageInsertIncomplete { missing },
                ) && missing@ == d2.pending)
                &&& refused is None && d2.pending.len() == 0 ==> r is Ok
            }
        },
{
    proof {
        old(src).lemma_model_shape();
    }
    let insert = match ArchetypeStorage::copy_entity(src, dst, e) {
        Ok(ins) => ins,
        Err(err) => {
            return Err(err);
        },
    };
    let ghost s = old(src)@;
    let ghost d0 = receiving(old(dst)@, e);
    let ghost coli = s.column(e);
    let ghost d1 = dst@;
    let ghost ins = insert_bytes(inserts@);
    proof {
        lemma_moved_shape(s, d0, coli, s.tys.len());
        lemma_moved_source(s, d0, coli, s.tys.len());
        lemma_moved_keeps(s, d0, coli, s.tys.len());
        assert(ins.take(0) =~= Seq::<(usize, Seq<u8>)>::empty());
        assert forall|f: Entity| old(dst)@.has_entity(f) implies d1.entities.contains(f) by {
            let i = choose|i: int| 0 <= i < old(dst)@.entities.len() && old(dst)@.entities[i] == f;
            assert(d1.entities[i] == f);
        }
    }
    let ghost moved_src = *src;
    let mut insert = insert;
    let mut k: usize = 0;
    while k < inserts.len()
        invariant
            *src == moved_src,
            moved_src.wf(),
            old(src)@.has_entity(e) && !old(dst)@.has_entity(e),
            s == old(src)@,
            d0 == receiving(old(dst)@, e),
            coli == s.column(e),
            (moved_src@, d1) == moved(s, d0, coli, s.tys.len()),
            moved_src@.tys == old(src)@.tys,
            k <= inserts@.len(),
            ins == insert_bytes(inserts@),
            dst.wf(),
            dst@.tys == old(dst)@.tys,
            dst@.sizes == old(dst)@.sizes,
            given_all(d1, ins.take(k as int)) == (dst@, None::<usize>),
            d1.tys == dst@.tys,
            d1.sizes == dst@.sizes,
            d1.entities == dst@.entities,
            moved_src@ == old(src)@,
            forall|f: Entity| old(dst)@.has_entity(f) ==> d1.entities.contains(f),
            forall|i: int|
                0 <= i < inserts@.len() && #[trigger] insert_taken(d1, ins, i) ==> inserts@[i].1.bytes().len()
                    >= d1.sizes[d1.row(inserts@[i].0)],
        decreases inserts@.len() - k,
    {
        let cty = inserts[k].0;
        let bytes = inserts[k].1.get();
        let ghost prev = dst@;
        proof {
            assert(ins.take(k + 1).drop_last() =~= ins.take(k as int));
            assert(ins.take(k + 1).last() == (cty, bytes@));
            if prev.pending.contains(cty) {
                assert(ins[k as int].0 == cty);
                assert(insert_taken(d1, ins, k as int));
            }
        }
        match insert.insert(dst, cty, bytes) {
            Ok(()) => {},
            Err(err) => {
                proof {
                    lemma_given_all_stops(d1, ins, k + 1);
                }
                return Err(err);
            },
        }
        k = k + 1;
    }
    proof {
        assert(ins.take(k as int) =~= ins);
        assert(given_all(d1, ins) == (dst@, None::<usize>));
        assert(src@ == moved(s, d0, coli, s.tys.len()).0);
    }
    insert.done(dst)
}

/// Parking a value under `a` while `b` changes, then putting another under
/// `a`, is the same as changing `b` and then `a`.
proof fn lemma_parked(m: SparseModel<ArchetypeStorage>, a: usize, b: usize, p: ArchetypeStorage, d: ArchetypeStorage, x: ArchetypeStorage)
    requires
        m.wf(),
        m.contains(a),
        m.contains(b),
        a != b,
    ensures
        m.with_value(a, p).with_value(b, d).with_value(a, x) == m.with_value(b, d).with_value(a, x),
{
    let da = m.slot(a)->0 as int;
    let db = m.slot(b)->0 as int;
    assert(m.dense[da].0 == a && m.dense[db].0 == b);
    assert(m.with_value(a, p).with_value(b, d).with_value(a, x).dense =~= m.with_value(b, d).with_value(
        a,
        x,
    ).dense);
}

/// Replacing the value just inserted is inserting the replacement.
proof fn lemma_insert_replaced(m: SparseModel<ArchetypeStorage>, k: usize, c: ArchetypeStorage, d: ArchetypeStorage)
    requires
        m.dense.len() < usize::MAX,
    ensures
        m.insert(k, c).with_value(k, d) == m.insert(k, d),
{
    let g = SparseModel::<ArchetypeStorage>::grown(m.sparse, k);
    assert(k < g.len());
    assert(m.insert(k, c).slot(k) == Some(m.dense.len() as usize));
    assert(m.insert(k, c).with_value(k, d).dense =~= m.insert(k, d).dense);
}

impl ArchetypeManager {
    /// The storages after a move, stated against those before the target
    /// group was registered.
    proof fn lemma_moved_storages(
        before: &ArchetypeManager,
        mid: &ArchetypeManager,
        after: &ArchetypeManager,
        src: usize,
        gid: usize,
        fresh: bool,
        d: ArchetypeStorage,
        x: ArchetypeStorage,
    )
        requires
            mid.storages@.wf(),
            mid.storages@.contains(src),
            mid.storages@.contains(gid),
            src != gid,
            fresh ==> mid.storages@ == before.storages@.insert(gid, mid.storage(gid))
                && before.storages@.dense.len() < usize::MAX,
            !fresh ==> mid.storages@ == before.storages@,
            after.storages@ == mid.storages@.with_value(gid, d).with_value(src, x),
        ensures
            after.storage(gid) == d,
            after.storage(src) == x,
            after.storages() == (if fresh {
                before.storages().insert(gid, after.storage(gid))
            } else {
                before.storages().with_value(gid, after.storage(gid))
            }).with_value(src, after.storage(src)),
    {
        let m1 = mid.storages@.with_value(gid, d);
        law_with_value(mid.storages@, gid, d);
        law_with_value(m1, src, x);
        assert(after.storages@.lookup(gid) == m1.lookup(gid));
        if fresh {
            lemma_insert_replaced(before.storages@, gid, mid.storage(gid), d);
        }
    }

    /// Two storages were replaced by well-formed ones with the same types.
    proof fn lemma_two_replaced(before: &ArchetypeManager, after: &ArchetypeManager, a: usize, b: usize)
        requires
            before.wf(),
            before.storages@.contains(a),
            before.storages@.contains(b),
            a != b,
            after.storages@ == before.storages@.with_value(b, after.storage(b)).with_value(a, after.storage(a)),
            after.storage(a).wf(),
            after.storage(b).wf(),
            after.storage(a)@.tys == before.storage(a)@.tys,
            after.storage(b)@.tys == before.storage(b)@.tys,
            after.entity_set == before.entity_set,
            after.cgmgr == before.cgmgr,
            after.akmgr == before.akmgr,
            forall|f: Entity| before.storage(a)@.has_entity(f) ==> after.storage(a)@.has_entity(f),
            forall|f: Entity| before.storage(b)@.has_entity(f) ==> after.storage(b)@.has_entity(f),
        ensures
            after.wf(),
    {
        let m = before.storages@;
        let mb = m.with_value(b, after.storage(b));
        law_with_value(m, b, after.storage(b));
        law_with_value(mb, a, after.storage(a));
        reveal(entities_stored);
        assert forall|id: usize| #[trigger] after.entity_set@.contains(id) implies after.storages@.value(
            after.entity_set@.value(id),
        )@.has_entity(Entity { id }) by {
            let g = after.entity_set@.value(id);
            before.lemma_entity_group(id);
            if g != a && g != b {
                assert(mb.lookup(g) == m.lookup(g));
                assert(after.storages@.lookup(g) == mb.lookup(g));
            }
        }
        let sm = after.storages@;
        let da = m.slot(a)->0 as int;
        let db = m.slot(b)->0 as int;
        assert(m.dense[da].0 == a && m.dense[db].0 == b);
        assert(sm.dense == m.dense.update(db, (b, after.storage(b))).update(da, (a, after.storage(a))));
        assert forall|d: int| 0 <= d < sm.dense.len() implies {
            &&& (#[trigger] sm.dense[d]).0 < after.cgmgr@.len()
            &&& sm.dense[d].1.wf()
            &&& sm.dense[d].1@.tys == after.cgmgr@[sm.dense[d].0 as int]
        } by {
            if d != da && d != db {
                assert(sm.dense[d] == m.dense[d]);
            } else if d == da {
                assert(sm.dense[d] == (a, after.storage(a)));
                assert(m.dense[da].1 == before.storage(a));
            } else {
                assert(sm.dense[d] == (b, after.storage(b)));
                assert(m.dense[db].1 == before.storage(b));
            }
        }
        assert(after.keys() == before.keys());
        assert forall|g: usize| g < after.cgmgr@.len() implies #[trigger] sm.contains(g) by {
            assert(m.contains(g));
            assert(sm.slot(g) == m.slot(g));
        }
    }
}

impl ArchetypeManager {
    /// Moves `e` from the storage of its group into the storage of the group
    /// that the removes and inserts of `et` give it, registering that group
    /// when it is new.
    #[verifier::rlimit(60)]
    fn relocate(&mut self, e: Entity, et: &EntityTransform, ctymgr: &ComponentTypeManager) -> (r: Result<()>)
        requires
            old(self).wf(),
            ctymgr.wf(),
            old(self).relocatable(e, insert_bytes(et.inserts()), et.removes(), ctymgr.entries()),
        ensures
            final(self).wf(),
            old(self).relocated(*final(self), e, insert_bytes(et.inserts()), et.removes(), ctymgr.entries(), r),
    {
        let ghost ins = insert_bytes(et.inserts());
        let src = match self.entity_set.get(e.id()) {
            Some(g) => *g,
            None => {
                return Err(RuntimeError::BadEntity { e });
            },
        };
        proof {
            self.lemma_entity_group(e.id);
        }
        let group = match self.transformed_group_of(src, et) {
            Ok(g) => g,
            Err(err) => {
                return Err(err);
            },
        };
        let ghost before = *self;
        let ghost fresh = !before.groups().contains(group@);
        let gid = match self.create_gid(&group, ctymgr) {
            Ok(gid) => gid,
            Err(_) => self.cgmgr.get_id_from_group(&group).unwrap(),
        };
        proof {
            if !fresh {
                self.cgmgr.lemma_id_is_index(group@, gid as int);
            }
            assert(gid == group_id(before.groups(), group@));
        }
        if gid == src {
            return Err(RuntimeError::BadEntity { e });
        }
        let ghost mid = *self;
        proof {
            self.lemma_storage(src);
            self.lemma_storage(gid);
            if fresh {
                law_insert_fresh(before.storages@, gid, mid.storage(gid));
                assert(mid.storages@.map()[src] == before.storages@.map()[src]);
                assert(mid.storage(src) == before.storage(src));
            }
            assert(mid.storage(src)@ == before.storage(src)@);
            assert(mid.storage(gid)@ == before.target_storage(group@, ctymgr.entries()));
        }
        let mut moving = ArchetypeStorage::create(&ComponentTypeManager::create(), &ComponentGroup::create()).unwrap();
        {
            let slot = self.storages.get_mut(src).unwrap();
            std::mem::swap(slot, &mut moving);
        }
        let ghost parked = *self;
        proof {
            law_with_value(mid.storages@, src, parked.storage(src));
            assert(parked.storages@.lookup(gid) == mid.storages@.lookup(gid));
            assert(parked.storage(gid) == mid.storage(gid));
            let sv = mid.storage(src)@;
            let dv = mid.storage(gid)@;
            let d1 = moved(sv, receiving(dv, e), sv.column(e), sv.tys.len()).1;
            if sv.has_entity(e) && !dv.has_entity(e) {
                assert forall|i: int|
                    0 <= i < et.inserts().len() && #[trigger] insert_taken(d1, ins, i) implies et.inserts()[i].1.bytes().len()
                        >= d1.sizes[d1.row(et.inserts()[i].0)] by {
                    assert(ins[i] == (et.inserts()[i].0, et.inserts()[i].1.bytes()));
                }
            }
        }
        let dst = self.storages.get_mut(gid).unwrap();
        let res = move_into(&mut moving, dst, e, et.get_inserts());
        {
            let slot = self.storages.get_mut(src).unwrap();
            std::mem::swap(slot, &mut moving);
        }
        proof {
            lemma_parked(mid.storages@, src, gid, parked.storage(src), self.storage(gid), self.storage(src));
            assert(self.storages@ == mid.storages@.with_value(gid, self.storage(gid)).with_value(src, self.storage(src)));
        }
        proof {
            if fresh {
                assert(before.storages@.dense.len() < usize::MAX) by {
                    assert(before.storages@.dense.len() <= gid);
                }
            }
            ArchetypeManager::lemma_moved_storages(&before, &mid, self, src, gid, fresh, self.storage(gid), self.storage(src));
        }
        match res {
            Ok(()) => {},
            Err(err) => {
                proof {
                    ArchetypeManager::lemma_two_replaced(&mid, self, src, gid);
                }
                return Err(err);
            },
        }
        let ghost moved_all = *self;
        proof {
            ArchetypeManager::lemma_two_replaced(&mid, self, src, gid);
            self.lemma_storage(src);
            let sv = mid.storage(src)@;
            mid.storage(src).lemma_model_shape();
            lemma_moved_shape(sv, receiving(mid.storage(gid)@, e), sv.column(e), sv.tys.len());
        }
        proof {
            let sv = mid.storage(src)@;
            let dv = mid.storage(gid)@;
            let d0 = receiving(dv, e);
            let d1 = moved(sv, d0, sv.column(e), sv.tys.len()).1;
            lemma_moved_keeps(sv, d0, sv.column(e), sv.tys.len());
            lemma_given_all_keeps(d1, ins);
            assert(self.storage(gid)@.entities == dv.entities.push(e));
            assert(self.storage(gid)@.entities[dv.entities.len() as int] == e);
            assert(self.storage(gid)@.has_entity(e));
            lemma_keys_in_range(self.entity_set@, e.id, gid);
        }
        let ghost placed = *self;
        let entry = self.entity_set.get_mut(e.id()).unwrap();
        *entry = gid;
        proof {
            law_with_value(placed.entity_set@, e.id, gid);
            let od = placed.entity_set@.dense;
            assert forall|d: int| 0 <= d < self.entity_set@.dense.len() implies (#[trigger] self.entity_set@.dense[d]).1
                < self.cgmgr@.len() by {
                if d != placed.entity_set@.slot(e.id)->0 as int {
                    assert(self.entity_set@.dense[d] == od[d]);
                }
            }
            reveal(entities_stored);
            assert forall|id: usize| #[trigger] self.entity_set@.contains(id) implies self.storages@.value(
                self.entity_set@.value(id),
            )@.has_entity(Entity { id }) by {
                if id != e.id {
                    assert(self.entity_set@.lookup(id) == placed.entity_set@.lookup(id));
                    assert(placed.entity_set@.contains(id));
                }
            }
            ArchetypeManager::lemma_entity_set_changed(&placed, self);
        }
        let ghost recorded = *self;
        let slot = self.storages.get_mut(src).unwrap();
        let removed = slot.remove(e);
        assert(removed is Ok);
        proof {
            lemma_with_value_twice(
                mid.storages@.with_value(gid, moved_all.storage(gid)),
                src,
                moved_all.storage(src),
                self.storage(src),
            );
            law_with_value(recorded.storages@, src, self.storage(src));
            assert forall|f: Entity|
                recorded.storage(src)@.has_entity(f) && !self.storage(src)@.has_entity(f) implies !(
                self.entity_set@.contains(f.id) && self.entity_set@.value(f.id) == src) by {
                if f != e {
                    super::storage::lemma_removed_keeps_entities(recorded.storage(src)@, e, f);
                }
            }
            ArchetypeManager::lemma_storage_replaced(&recorded, self, src);
            ArchetypeManager::lemma_moved_storages(&before, &mid, self, src, gid, fresh, moved_all.storage(gid), self.storage(src));
        }
        Ok(())
    }
}

impl ArchetypeManager {
    /// `after` is `self` with `e` newly recorded in the empty group and
    /// appended, without components, to its storage.
    pub open spec fn entity_inserted(self, after: ArchetypeManager, e: Entity) -> bool {
        &&& after.wf()
        &&& after.lock_count() == self.lock_count()
        &&& after.groups() == self.groups()
        &&& after.keys() == self.keys()
        &&& after.key_accesses() == self.key_accesses()
        &&& after.key_filters() == self.key_filters()
        &&& after.entity_set() == self.entity_set().insert(e.id, 0)
        &&& after.storages() == self.storages().with_value(0, after.storage(0))
        &&& after.storage(0)@ == super::storage::inserted_entity(self.storage(0)@, e)
    }

    /// `after` is `self` with `e` dropped from the storage of its group and
    /// from the record of entities.
    pub open spec fn entity_removed(self, after: ArchetypeManager, e: Entity) -> bool {
        let gid = self.entity_set().value(e.id);
        &&& after.lock_count() == self.lock_count()
        &&& after.groups() == self.groups()
        &&& after.keys() == self.keys()
        &&& after.key_accesses() == self.key_accesses()
        &&& after.key_filters() == self.key_filters()
        &&& after.entity_set() == self.entity_set().remove(e.id)
        &&& after.storages() == self.storages().with_value(gid, after.storage(gid))
        &&& after.storage(gid)@ == removed_entity(self.storage(gid)@, e)
    }

    /// Applies the transform `et`: creates, changes the components of, or
    /// destroys its entity. Refused while accesses hold locks. A created
    /// entity is first stored without components and then moved like a
    /// changed one; a destroyed one is removed.
    pub fn transform_entity(&mut self, et: EntityTransform, ctymgr: &ComponentTypeManager) -> (r: Result<()>)
        requires
            old(self).wf(),
            ctymgr.wf(),
            old(self).lock_count() == 0 ==> match et.modify() {
                EntityModify::Modify(e) => old(self).relocatable(
                    e,
                    insert_bytes(et.inserts()),
                    et.removes(),
                    ctymgr.entries(),
                ),
                EntityModify::Destroy(e) => old(self).entity_set().contains(e.id) ==> removable_entity(
                    old(self).storage(old(self).entity_set().value(e.id))@,
                    e,
                ),
                EntityModify::Create(e) => {
                    &&& e.id < usize::MAX
                    &&& old(self).entity_set().dense.len() < usize::MAX
                    &&& forall|mid: ArchetypeManager|
                        old(self).entity_inserted(mid, e) ==> #[trigger] mid.relocatable(
                            e,
                            insert_bytes(et.inserts()),
                            et.removes(),
                            ctymgr.entries(),
                        )
                },
            },
        ensures
            final(self).wf(),
            old(self).lock_count() != 0 ==> r == Err::<(), RuntimeError>(RuntimeError::ArchetypeStorageLocked)
                && *final(self) == *old(self),
            old(self).lock_count() == 0 ==> match et.modify() {
                EntityModify::Modify(e) => old(self).relocated(
                    *final(self),
                    e,
                    insert_bytes(et.inserts()),
                    et.removes(),
                    ctymgr.entries(),
                    r,
                ),
                EntityModify::Destroy(e) => if old(self).entity_set().contains(e.id) {
                    r is Ok && old(self).entity_removed(*final(self), e)
                } else {
                    r == Err::<(), RuntimeError>(RuntimeError::BadEntity { e }) && *final(self) == *old(self)
                },
                EntityModify::Create(e) => if old(self).entity_set().contains(e.id) {
                    r == Err::<(), RuntimeError>(RuntimeError::BadEntity { e }) && *final(self) == *old(self)
                } else if old(self).storage(0)@.has_entity(e) {
                    &&& r == Err::<(), RuntimeError>(RuntimeError::BadEntity { e })
                    &&& final(self).entity_set() == old(self).entity_set().insert(e.id, 0)
                    &&& final(self).storages() == old(self).storages()
                    &&& final(self).lock_count() == old(self).lock_count()
                    &&& final(self).groups() == old(self).groups()
                    &&& final(self).keys() == old(self).keys()
                } else {
                    exists|mid: ArchetypeManager|
                        old(self).entity_inserted(mid, e) && #[trigger] mid.relocated(
                            *final(self),
                            e,
                            insert_bytes(et.inserts()),
                            et.removes(),
                            ctymgr.entries(),
                            r,
                        )
                },
            },
    {
        match self.yeet_locked() {
            Ok(()) => {},
            Err(err) => {
                return Err(err);
            },
        }
        let e = match et.get_modify() {
            EntityModify::Modify(e) => e,
            EntityModify::Create(e) => {
                match self.insert_entity(e) {
                    Ok(()) => {},
                    Err(err) => {
                        return Err(err);
                    },
                }
                proof {
                    assert(old(self).entity_inserted(*self, e));
                }
                e
            },
            EntityModify::Destroy(e) => {
                return self.remove_entity(e);
            },
        };
        let ghost mid = *self;
        let r = self.relocate(e, &et, ctymgr);
        proof {
            if et.modify() is Create {
                assert(old(self).entity_inserted(mid, e) && mid.relocated(
                    *self,
                    e,
                    insert_bytes(et.inserts()),
                    et.removes(),
                    ctymgr.entries(),
                    r,
                ));
            }
        }
        r
    }
}

/// A destroyed entity is gone: it is no longer recorded, so a second
/// destroy of it is refused; the other entities stay where they were.
pub proof fn law_destroyed_entity_is_gone(m: ArchetypeManager, after: ArchetypeManager, e: Entity, other: usize)
    requires
        m.wf(),
        m.entity_removed(after, e),
    ensures
        !after.entity_set().contains(e.id),
        other != e.id ==> after.entity_set().lookup(other) == m.entity_set().lookup(other),
{
    crate::data::sparse::law_remove(m.entity_set(), e.id);
    if other != e.id {
        assert(after.entity_set().map() == m.entity_set().map().remove(e.id));
        assert(after.entity_set().map().dom().contains(other) == m.entity_set().map().dom().contains(other));
        if m.entity_set().contains(other) {
            assert(after.entity_set().map()[other] == m.entity_set().map()[other]);
        }
    }
}

/// The group that a transform with `inserts` and `removes` moves `e` into.
pub open spec fn moved_group(m: ArchetypeManager, e: Entity, inserts: Seq<(usize, Seq<u8>)>, removes: Seq<usize>) -> usize {
    match m.target_group(e, inserts, removes) {
        Ok(group) => group_id(m.groups(), group),
        Err(_) => 0,
    }
}

/// A transform that moves `e` into another group leaves every other entity
/// as it was: each stays recorded in its group; in `e`'s old storage and in
/// its new one each still holds the components it had (read back as
/// before); and the storages of all other groups are untouched.
pub proof fn law_move_keeps_others(
    m: ArchetypeManager,
    after: ArchetypeManager,
    e: Entity,
    inserts: Seq<(usize, Seq<u8>)>,
    removes: Seq<usize>,
    entries: Seq<ComponentTypeEntry>,
    f: Entity,
    g: usize,
    cty: usize,
)
    requires
        m.wf(),
        m.groups().len() < usize::MAX,
        m.relocated(after, e, inserts, removes, entries, Ok(())),
        f != e,
    ensures
        m.entity_set().contains(e.id),
        moved_group(m, e, inserts, removes) != m.entity_set().value(e.id),
        after.entity_set().lookup(e.id) == Some(moved_group(m, e, inserts, removes)),
        after.entity_set().lookup(f.id) == m.entity_set().lookup(f.id),
        m.storages().contains(g) && g != m.entity_set().value(e.id) && g != moved_group(m, e, inserts, removes)
            ==> after.storages().lookup(g) == m.storages().lookup(g),
        ({
            let s = m.storage(m.entity_set().value(e.id))@;
            let s2 = after.storage(m.entity_set().value(e.id))@;
            s.complete() && s.has_entity(f) && s.has_ty(cty) ==> {
                &&& s2.has_entity(f)
                &&& !s2.has_entity(e)
                &&& read_back(s2, f, cty) == read_back(s, f, cty)
            }
        }),
        ({
            let gid = moved_group(m, e, inserts, removes);
            let t = m.storage(gid)@;
            let t2 = after.storage(gid)@;
            m.storages().contains(gid) && t.complete() && t.has_entity(f) && t.has_ty(cty) ==> {
                &&& t2.has_entity(f)
                &&& t2.has_entity(e)
                &&& read_back(t2, f, cty) == read_back(t, f, cty)
            }
        }),
{
    let src = m.entity_set().value(e.id);
    let group = m.target_group(e, inserts, removes)->Ok_0;
    let fresh = !m.groups().contains(group);
    let gid = group_id(m.groups(), group);
    let s = m.storage(src)@;
    let dst = m.target_storage(group, entries);
    let coli = s.column(e);
    let d0 = receiving(dst, e);
    let n = s.tys.len() as int;
    lemma_moved_source(s, d0, coli, n as nat);
    m.lemma_entity_group(e.id);
    law_with_value(m.entity_set(), e.id, gid);
    // The storages after the new group's storage is in place.
    let x = if fresh {
        m.storages().insert(gid, after.storage(gid))
    } else {
        m.storages().with_value(gid, after.storage(gid))
    };
    let sm = m.storages();
    if fresh {
        assert(!sm.contains(gid)) by {
            if sm.contains(gid) {
                let d = sm.slot(gid)->0 as int;
                assert(sm.dense[d].0 == gid);
            }
        }
        assert(sm.dense.len() < usize::MAX) by {
            assert(sm.dense.len() <= m.groups().len());
        }
        law_insert_fresh(sm, gid, after.storage(gid));
        if g != gid {
            law_insert_keeps_other_keys(sm, gid, after.storage(gid), g);
        }
        law_insert_keeps_other_keys(sm, gid, after.storage(gid), src);
    } else {
        assert(m.groups().index_of(group) < m.groups().len());
        assert(sm.contains(gid));
        law_with_value(sm, gid, after.storage(gid));
    }
    assert(x.contains(src));
    law_with_value(x, src, after.storage(src));
    if s.complete() && s.has_entity(f) && s.has_ty(cty) {
        m.lemma_storage(src);
        m.storage(src).lemma_model_shape();
        let row = s.row(cty);
        assert(0 <= row < s.cols.len());
        super::storage::law_remove_keeps_others(s, e, f, row);
    }
    let t = m.storage(gid)@;
    if sm.contains(gid) && t.complete() && t.has_entity(f) && t.has_ty(cty) {
        assert(!fresh) by {
            if fresh {
                let d = sm.slot(gid)->0 as int;
                assert(sm.dense[d].0 == gid);
            }
        }
        assert(dst == t);
        let d1 = moved(s, d0, coli, n as nat).1;
        let d2 = given_all(d1, inserts).0;
        lemma_moved_keeps(s, d0, coli, n as nat);
        lemma_given_all_keeps(d1, inserts);
        m.lemma_storage(gid);
        m.storage(gid).lemma_model_shape();
        let t2 = after.storage(gid)@;
        assert(t2 == d2);
        assert(t2.entities == t.entities.push(e));
        let cf = t.column(f);
        assert(t.entities.contains(f));
        assert(0 <= cf < t.entities.len() && t.entities[cf] == f);
        assert(t2.entities[cf] == f);
        assert(t2.has_entity(f));
        assert(t2.entities[t.entities.len() as int] == e);
        assert(t2.has_entity(e));
        let c2 = t2.column(f);
        assert(0 <= c2 < t2.entities.len() && t2.entities[c2] == f);
        assert(c2 == cf) by {
            if c2 == t.entities.len() {
                assert(f == e);
            } else {
                assert(t.entities[c2] == f);
            }
        }
        let row = t.row(cty);
        assert(t.tys.contains(cty));
        assert(0 <= row < t.cols.len());
        assert(t.cols[row].len() == t.entities.len());
        assert(d0.cols == t.cols);
        assert(t2.cols[row][cf] == t.cols[row][cf]);
    }
}

/// The storage, as it is before the move, that a transform with `inserts`
/// and `removes` moves `e` into.
pub open spec fn moved_target(
    m: ArchetypeManager,
    e: Entity,
    inserts: Seq<(usize, Seq<u8>)>,
    removes: Seq<usize>,
    entries: Seq<ComponentTypeEntry>,
) -> StorageModel {
    match m.target_group(e, inserts, removes) {
        Ok(group) => m.target_storage(group, entries),
        Err(_) => empty_storage(Seq::empty(), entries),
    }
}

/// A transform that moves `e` into another group leaves nothing pending in
/// the new storage and gives `e` there, for each type of the new group, the
/// last component inserted for that type, or else the component `e` had of
/// it (for types of positive size, into a storage that held whole
/// components).
pub proof fn law_move_places_components(
    m: ArchetypeManager,
    after: ArchetypeManager,
    e: Entity,
    inserts: Seq<(usize, Seq<u8>)>,
    removes: Seq<usize>,
    entries: Seq<ComponentTypeEntry>,
    cty: usize,
)
    requires
        m.wf(),
        m.relocated(after, e, inserts, removes, entries, Ok(())),
        moved_target(m, e, inserts, removes, entries).complete(),
        forall|r: int|
            0 <= r < moved_target(m, e, inserts, removes, entries).sizes.len() ==> moved_target(
                m,
                e,
                inserts,
                removes,
                entries,
            ).sizes[r] > 0,
    ensures
        ({
            let s = m.storage(m.entity_set().value(e.id))@;
            let t = moved_target(m, e, inserts, removes, entries);
            let t2 = after.storage(moved_group(m, e, inserts, removes))@;
            &&& t2.pending.len() == 0
            &&& t2.has_entity(e)
            &&& t2.tys == t.tys
            &&& t.tys.contains(cty) ==> last_inserted(inserts, cty) is Some || s.tys.contains(cty)
            &&& t.tys.contains(cty) ==> read_back(t2, e, cty) == if last_inserted(inserts, cty) is Some {
                last_inserted(inserts, cty)->0.subrange(0, t.sizes[t.row(cty)] as int)
            } else {
                s.cols[s.row(cty)][s.column(e)].subrange(0, t.sizes[t.row(cty)] as int)
            }
        }),
{
    let src = m.entity_set().value(e.id);
    let group = m.target_group(e, inserts, removes)->Ok_0;
    let fresh = !m.groups().contains(group);
    let gid = group_id(m.groups(), group);
    let s = m.storage(src)@;
    let t = m.target_storage(group, entries);
    let coli = s.column(e);
    let d0 = receiving(t, e);
    let n = s.tys.len() as int;
    assert(d0 == inserted_entity(t, e));
    m.lemma_entity_group(e.id);
    m.lemma_storage(src);
    m.storage(src).lemma_model_shape();
    // The new group has no type twice, and neither has its storage.
    let ids = m.groups()[src as int];
    match ids_removed(ids, removes) {
        Ok(rest) => {
            let all = rest + insert_ids(inserts);
            super::component_group::law_build_succeeds_iff_distinct(all);
            super::component_group::lemma_sorted_distinct(all);
        },
        Err(_) => {},
    }
    assert(group.no_duplicates());
    assert(m.target_group(e, inserts, removes) is Ok);
    m.lemma_null_group();
    if !fresh {
        let w = m.groups().index_of(group);
        assert(0 <= w < m.groups().len() && m.groups()[w] == group);
        assert(gid == w);
        assert(0 <= gid < m.groups().len() && m.groups()[gid as int] == group);
        assert(m.storages().contains(gid));
        m.lemma_storage(gid);
        m.storage(gid).lemma_model_shape();
        assert(t.tys == group);
    } else {
        assert(t.tys == group);
    }
    assert(t.cols.len() == t.tys.len() && t.sizes.len() == t.tys.len()) by {
        if !fresh {
            m.storage(gid).lemma_model_shape();
        }
    }
    lemma_move_then_give(t, e, s, coli, inserts);
    let d2 = given_all(moved(s, d0, coli, n as nat).1, inserts).0;
    let t2 = after.storage(gid)@;
    assert(t2 == d2);
    assert(t2.entities[t.entities.len() as int] == e);
    assert(t2.has_entity(e));
    assert(t2.column(e) == t.entities.len()) by {
        let c = t2.column(e);
        assert(0 <= c < t2.entities.len() && t2.entities[c] == e);
        if c < t.entities.len() {
            assert(t.entities[c] == e);
            assert(t.has_entity(e));
        }
    }
    if t.tys.contains(cty) {
        assert(!d2.pending.contains(cty)) by {
            if d2.pending.contains(cty) {
                let w = d2.pending.index_of(cty);
                assert(0 <= w < d2.pending.len());
            }
        }
        let row = t.row(cty);
        assert(0 <= row < t.tys.len() && t.tys[row] == cty);
        assert(t.cols[row].len() == t.entities.len());
        assert(t2.row(cty) == row);
    }
}

/// A Modify that moves a recorded entity `e` into another group succeeds
/// when the removes name types of `e`, each once, and the inserts name
/// distinct types, none of which `e` keeps or removes (so that the new
/// group is `e`'s types without the removed ones, with the inserted ones);
/// the destination must hold whole components of positive size, and not `e`.
/// `e` is then recorded in the new group.
pub proof fn law_modify_succeeds(
    m: ArchetypeManager,
    after: ArchetypeManager,
    e: Entity,
    inserts: Seq<(usize, Seq<u8>)>,
    removes: Seq<usize>,
    entries: Seq<ComponentTypeEntry>,
    r: Result<()>,
)
    requires
        m.wf(),
        m.relocated(after, e, inserts, removes, entries, r),
        m.entity_set().contains(e.id),
        m.target_group(e, inserts, removes) is Ok,
        moved_group(m, e, inserts, removes) != m.entity_set().value(e.id),
        forall|i: int, j: int| 0 <= i < removes.len() && 0 <= j < inserts.len() ==> removes[i] != inserts[j].0,
        moved_target(m, e, inserts, removes, entries).complete(),
        forall|k: int|
            0 <= k < moved_target(m, e, inserts, removes, entries).sizes.len() ==> moved_target(
                m,
                e,
                inserts,
                removes,
                entries,
            ).sizes[k] > 0,
        !moved_target(m, e, inserts, removes, entries).has_entity(e),
    ensures
        r is Ok,
        after.entity_set().lookup(e.id) == Some(moved_group(m, e, inserts, removes)),
{
    let src = m.entity_set().value(e.id);
    let g0 = m.groups()[src as int];
    let group = m.target_group(e, inserts, removes)->Ok_0;
    let fresh = !m.groups().contains(group);
    let gid = group_id(m.groups(), group);
    let s = m.storage(src)@;
    let t = m.target_storage(group, entries);
    let coli = s.column(e);
    let d0 = receiving(t, e);
    assert(d0 == inserted_entity(t, e));
    m.lemma_entity_group(e.id);
    m.lemma_storage(src);
    m.storage(src).lemma_model_shape();
    m.lemma_recorded_is_stored(e.id);
    m.lemma_null_group();
    assert(s.tys == g0);
    let rest = ids_removed(g0, removes)->Ok_0;
    let ids = insert_ids(inserts);
    let all = rest + ids;
    super::component_group::law_build_succeeds_iff_distinct(all);
    super::component_group::lemma_sorted_distinct(all);
    lemma_ids_removed_contains(g0, removes);
    assert(group == sorted_ids(all));
    assert forall|x: usize| group.contains(x) <==> all.contains(x) by {
        super::component_group::law_build_keeps_ids(all, x);
    }
    if !fresh {
        let w = m.groups().index_of(group);
        assert(0 <= w < m.groups().len() && m.groups()[w] == group);
        assert(gid == w);
        assert(m.storages().contains(gid));
        m.lemma_storage(gid);
        m.storage(gid).lemma_model_shape();
    }
    assert(t.tys == group);
    assert(t.cols.len() == t.tys.len() && t.sizes.len() == t.tys.len());
    assert(ids.no_duplicates()) by {
        assert forall|a: int, b: int| 0 <= a < b < ids.len() implies ids[a] != ids[b] by {
            assert(all[rest.len() + a] == ids[a] && all[rest.len() + b] == ids[b]);
        }
    }
    assert forall|i: int| 0 <= i < inserts.len() implies t.tys.contains(#[trigger] inserts[i].0) && !s.tys.contains(
        inserts[i].0,
    ) by {
        let x = inserts[i].0;
        assert(ids[i] == x);
        assert(all[rest.len() + i] == x);
        assert(all.contains(x));
        if s.tys.contains(x) {
            if removes.contains(x) {
                let j = choose|j: int| 0 <= j < removes.len() && removes[j] == x;
                assert(removes[j] != inserts[i].0);
            } else {
                assert(rest.contains(x));
                let a = choose|a: int| 0 <= a < rest.len() && rest[a] == x;
                assert(all[a] == x);
            }
        }
    }
    assert forall|x: usize| t.tys.contains(x) implies s.tys.contains(x) || ids.contains(x) by {
        assert(all.contains(x));
        let a = choose|a: int| 0 <= a < all.len() && all[a] == x;
        if a < rest.len() {
            assert(rest[a] == x);
            assert(rest.contains(x));
        } else {
            assert(ids[a - rest.len()] == x);
        }
    }
    lemma_move_then_give_completes(t, e, s, coli, inserts);
    law_with_value(m.entity_set(), e.id, gid);
}

/// The component of type `cty` that storage `st` holds for entity `e`.
pub open spec fn read_back(st: StorageModel, e: Entity, cty: usize) -> Seq<u8> {
    st.cols[st.row(cty)][st.column(e)]
}

/// Creating an entity with one component of each of some distinct
/// registered types of positive size, whose group does not exist yet: the
/// transform succeeds, the group is registered under the next id, the
/// entity is recorded in it, alone in its storage, and each component reads
/// back as it was given. `m` is the manager before the transform, `mid`
/// after the entity was stored without components, `after` at the end.
pub proof fn law_create_then_read(
    m: ArchetypeManager,
    mid: ArchetypeManager,
    after: ArchetypeManager,
    e: Entity,
    inserts: Seq<(usize, Seq<u8>)>,
    entries: Seq<ComponentTypeEntry>,
    r: Result<()>,
)
    requires
        m.entity_inserted(mid, e),
        mid.relocated(after, e, inserts, Seq::<usize>::empty(), entries, r),
        m.entity_set().dense.len() < usize::MAX,
        inserts.len() > 0,
        insert_ids(inserts).no_duplicates(),
        forall|i: int|
            0 <= i < inserts.len() ==> {
                &&& (#[trigger] inserts[i]).0 < entries.len()
                &&& entries[inserts[i].0 as int].size > 0
                &&& inserts[i].1.len() >= entries[inserts[i].0 as int].size
            },
        !m.groups().contains(sorted_ids(insert_ids(inserts))),
    ensures
        r is Ok,
        after.groups() == m.groups().push(sorted_ids(insert_ids(inserts))),
        after.entity_set().lookup(e.id) == Some(m.groups().len() as usize),
        after.storage(m.groups().len() as usize)@.entities == seq![e],
        forall|i: int|
            0 <= i < inserts.len() ==> #[trigger] read_back(after.storage(m.groups().len() as usize)@, e, inserts[i].0)
                == inserts[i].1.subrange(0, entries[inserts[i].0 as int].size as int),
{
    let ids = insert_ids(inserts);
    let group = sorted_ids(ids);
    crate::data::sparse::law_lookup_after_insert(m.entity_set(), e.id, 0);
    assert(mid.entity_set().contains(e.id) && mid.entity_set().value(e.id) == 0);
    mid.lemma_null_group();
    assert(ids_removed(Seq::<usize>::empty(), Seq::<usize>::empty()) == Ok::<Seq<usize>, usize>(Seq::<usize>::empty()));
    assert(Seq::<usize>::empty() + ids =~= ids);
    super::component_group::law_build_succeeds_iff_distinct(ids);
    assert(mid.target_group(e, inserts, Seq::<usize>::empty()) == Ok::<Seq<usize>, usize>(group));
    let gid = group_id(mid.groups(), group);
    assert(gid == m.groups().len());
    let s = mid.storage(0)@;
    let dst = empty_storage(group, entries);
    assert(mid.target_storage(group, entries) == dst);
    assert(s.entities == m.storage(0)@.entities.push(e));
    assert(s.entities[s.entities.len() - 1] == e);
    assert(s.has_entity(e));
    assert(!dst.has_entity(e));
    let coli = s.column(e);
    let d0 = receiving(dst, e);
    lemma_moved_zero(s, d0, coli);
    assert(s.tys.len() == 0);
    super::component_group::lemma_sorted_distinct(ids);
    assert forall|c: usize| ids.contains(c) <==> dst.tys.contains(c) by {
        super::component_group::law_build_keeps_ids(ids, c);
    }
    assert forall|i: int| 0 <= i < inserts.len() implies inserts[i].1.len() >= dst.sizes[dst.row(inserts[i].0)] by {
        let c = inserts[i].0;
        assert(ids[i] == c);
        assert(ids.contains(c));
        assert(dst.tys.contains(c));
        assert(dst.tys[dst.row(c)] == c);
    }
    assert forall|r: int| 0 <= r < dst.sizes.len() implies dst.sizes[r] > 0 by {
        let c = dst.tys[r];
        assert(dst.tys.contains(c));
        assert(ids.contains(c));
        let i = choose|i: int| 0 <= i < ids.len() && ids[i] == c;
        assert(inserts[i].0 == c);
    }
    assert(dst.complete());
    super::storage::law_insert_then_read(dst, e, inserts);
    assert(d0 == super::storage::inserted_entity(dst, e));
    let (d2, refused) = given_all(d0, inserts);
    assert(refused is None && d2.pending.len() == 0);
    law_with_value(mid.entity_set(), e.id, gid);
    assert forall|i: int| 0 <= i < inserts.len() implies #[trigger] read_back(after.storage(m.groups().len() as usize)@, e, inserts[i].0)
        == inserts[i].1.subrange(0, entries[inserts[i].0 as int].size as int) by {
        let c = inserts[i].0;
        assert(ids[i] == c);
        assert(ids.contains(c));
        assert(dst.tys.contains(c));
        assert(dst.sizes[dst.row(c)] == entries[c as int].size);
    }
    assert(d2.entities =~= seq![e]);
}

} // verus!
