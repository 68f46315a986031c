use super::component_group::{strictly_ascending, ComponentGroup};
use super::component_type::{ComponentTypeEntry, ComponentTypeManager};
use super::locker::{obtain, release, LockState, Locker};
use super::{ComponentTypeId, Entity};
use crate::data::sparse::{law_insert_fresh, SparseModel};
use crate::data::dvec::split_elems;
use crate::data::{DVec, SparseSet};
use crate::error::RuntimeError;
use crate::Result;
use vstd::prelude::*;

verus! {

/// `bytes` lay out the components `comps` of `size` bytes each, one after another.
pub open spec fn column_bytes(bytes: Seq<u8>, size: usize, comps: Seq<Seq<u8>>) -> bool {
    &&& bytes.len() == comps.len() * size
    &&& size > 0 ==> split_elems(bytes, size) == comps
}

/// The first position of `x` in `s`.
pub open spec fn first_index<A>(s: Seq<A>, x: A) -> int {
    choose|i: int| 0 <= i < s.len() && s[i] == x && forall|j: int| 0 <= j < i ==> s[j] != x
}

/// `s` with its element at `i` replaced by its last element, and the last dropped.
pub open spec fn swap_removed<A>(s: Seq<A>, i: int) -> Seq<A> {
    s.update(i, s.last()).drop_last()
}

/// Where a component type's column lies in the storage and who holds it.
struct ArchetypeStorageComponentEntry {
    row: usize,
    locker: Locker,
}

/// The mathematical state of an [`ArchetypeStorage`].
pub struct StorageModel {
    /// The component types, one per column (row), in ascending order.
    pub tys: Seq<usize>,
    /// The size of one component of each column.
    pub sizes: Seq<usize>,
    /// The components of each column, one per stored entity.
    pub cols: Seq<Seq<Seq<u8>>>,
    /// The lock state of each column.
    pub locks: Seq<u8>,
    /// The stored entities, in column order.
    pub entities: Seq<Entity>,
    /// The component types still to be given for the entity being inserted.
    pub pending: Seq<usize>,
}

impl StorageModel {
    pub open spec fn has_ty(self, cty: usize) -> bool {
        self.tys.contains(cty)
    }

    /// The column of component type `cty`.
    pub open spec fn row(self, cty: usize) -> int {
        self.tys.index_of(cty)
    }

    pub open spec fn has_entity(self, e: Entity) -> bool {
        self.entities.contains(e)
    }

    /// The position of entity `e` in the columns.
    pub open spec fn column(self, e: Entity) -> int {
        self.entities.index_of(e)
    }

    /// Every column holds one component per stored entity and no insert is pending.
    pub open spec fn complete(self) -> bool {
        &&& self.pending.len() == 0
        &&& forall|r: int| 0 <= r < self.cols.len() ==> (#[trigger] self.cols[r]).len()
            == self.entities.len()
    }
}

/// The components of the entities of one component group, a column per
/// component type.
pub struct ArchetypeStorage {
    datas: Vec<DVec>,
    component_tys: SparseSet<ComponentTypeId, ArchetypeStorageComponentEntry>,
    entities: Vec<Entity>,
    inserted_check: Vec<ComponentTypeId>,
}

impl View for ArchetypeStorage {
    type V = StorageModel;

    closed spec fn view(&self) -> StorageModel {
        let dense = self.component_tys@.dense;
        StorageModel {
            tys: Seq::new(dense.len(), |d: int| dense[d].0),
            sizes: Seq::new(self.datas@.len(), |r: int| self.datas@[r].size()),
            cols: Seq::new(self.datas@.len(), |r: int| self.datas@[r].elems()),
            locks: Seq::new(dense.len(), |d: int| dense[d].1.locker.state()),
            entities: self.entities@,
            pending: self.inserted_check@,
        }
    }
}

impl ArchetypeStorage {
    /// The table of component types describes the columns: each type's
    /// entry names its own column; columns hold whole components; no entity
    /// is stored twice; pending types are types of the storage.
    pub closed spec fn wf(&self) -> bool {
        let cm = self.component_tys@;
        &&& cm.wf()
        &&& cm.keys_in_range()
        &&& cm.dense.len() == self.datas@.len()
        &&& forall|d: int| 0 <= d < cm.dense.len() ==> (#[trigger] cm.dense[d]).1.row == d
        &&& forall|r: int| 0 <= r < self.datas@.len() ==> (#[trigger] self.datas@[r]).wf()
        &&& self.entities@.no_duplicates()
        &&& forall|i: int|
            0 <= i < self.inserted_check@.len() ==> self@.tys.contains(
                #[trigger] self.inserted_check@[i],
            )
    }

    /// The column of the type at position `i` is column `i`.
    pub proof fn lemma_row_of(&self, i: int)
        requires
            self.wf(),
            0 <= i < self@.tys.len(),
        ensures
            self@.row(self@.tys[i]) == i,
            self@.has_ty(self@.tys[i]),
            self@.cols.len() == self@.tys.len(),
            self@.locks.len() == self@.tys.len(),
    {
        self.lemma_lookup(self@.tys[i]);
        let k = self@.row(self@.tys[i]);
        assert(self@.tys[k] == self@.tys[i]);
    }

    /// A pending component type is a type of the storage.
    pub proof fn lemma_pending_is_type(&self, cty: usize)
        requires
            self.wf(),
            self@.pending.contains(cty),
        ensures
            self@.has_ty(cty),
    {
        self.lemma_pending_typed(cty);
    }

    /// A pending component type is a type of the storage.
    proof fn lemma_pending_typed(&self, cty: usize)
        requires
            self.wf(),
            self@.pending.contains(cty),
        ensures
            self@.has_ty(cty),
    {
        let k = self@.pending.index_of(cty);
        assert(self@.tys.contains(self.inserted_check@[k]));
    }

    /// Whether component type `cty` is still to be given for the entity
    /// being inserted.
    fn pending_has(&self, cty: ComponentTypeId) -> (r: bool)
        ensures
            r == self@.pending.contains(cty),
    {
        let mut i: usize = 0;
        while i < self.inserted_check.len()
            invariant
                i <= self.inserted_check@.len(),
                forall|j: int| 0 <= j < i ==> self.inserted_check@[j] != cty,
            decreases self.inserted_check@.len() - i,
        {
            if self.inserted_check[i] == cty {
                proof {
                    assert(self@.pending[i as int] == cty);
                }
                return true;
            }
            i = i + 1;
        }
        false
    }

    /// Under `wf`, there is one column per component type.
    proof fn lemma_shape(&self)
        requires
            self.wf(),
        ensures
            self@.cols.len() == self@.tys.len(),
            self@.sizes.len() == self@.tys.len(),
            self@.locks.len() == self@.tys.len(),
            self.datas@.len() == self@.tys.len(),
    {
    }

    /// A well-formed storage has one column, size and lock per type.
    pub proof fn lemma_model_shape(&self)
        requires
            self.wf(),
        ensures
            self@.cols.len() == self@.tys.len(),
            self@.sizes.len() == self@.tys.len(),
            self@.locks.len() == self@.tys.len(),
            self@.entities.no_duplicates(),
            self@.tys.no_duplicates(),
    {
        let cm = self.component_tys@;
        assert forall|a: int, b: int| 0 <= a < b < self@.tys.len() implies self@.tys[a] != self@.tys[b] by {
            assert(cm.slot(cm.dense[a].0) == Some(a as usize));
            assert(cm.slot(cm.dense[b].0) == Some(b as usize));
        }
    }

    /// Under `wf`, the table finds `cty` exactly when it is a type of the
    /// storage, and then at its row.
    proof fn lemma_lookup(&self, cty: usize)
        requires
            self.wf(),
        ensures
            self.component_tys@.contains(cty) == self@.has_ty(cty),
            self@.tys.no_duplicates(),
            self@.has_ty(cty) ==> self.component_tys@.slot(cty) == Some(self@.row(cty) as usize)
                && 0 <= self@.row(cty) < self.datas@.len() && self@.tys[self@.row(cty)] == cty,
    {
        let cm = self.component_tys@;
        let tys = self@.tys;
        assert forall|a: int, b: int| 0 <= a < b < tys.len() implies tys[a] != tys[b] by {
            assert(cm.slot(cm.dense[a].0) == Some(a as usize));
            assert(cm.slot(cm.dense[b].0) == Some(b as usize));
        }
        if cm.contains(cty) {
            let d = cm.slot(cty)->0;
            assert(tys[d as int] == cty);
        }
        if self@.has_ty(cty) {
            let k = tys.index_of(cty);
            assert(tys[k] == cty);
            assert(cm.slot(cm.dense[k].0) == Some(k as usize));
        }
    }
}

impl ArchetypeStorage {
    /// An empty storage with a column for each type of `group`, sized as
    /// `ctymgr` registered it. Fails on the first type that is not registered.
    pub fn create(ctymgr: &ComponentTypeManager, group: &ComponentGroup) -> (r: Result<Self>)
        requires
            ctymgr.wf(),
        ensures
            r is Ok <==> forall|i: int|
                0 <= i < group@.len() ==> #[trigger] group@[i] < ctymgr.entries().len(),
            r matches Ok(s) ==> s.wf() && s@ == empty_storage(group@, ctymgr.entries()),
            r matches Err(e) ==> exists|i: int|
                0 <= i < group@.len() && group@[i] >= ctymgr.entries().len() && (forall|j: int|
                    0 <= j < i ==> #[trigger] group@[j] < ctymgr.entries().len()) && e
                    == (RuntimeError::BadComponentType { ctyid: group@[i] }),
    {
        let ids = group.get();
        let tylen = ids.len();
        let mut storage = ArchetypeStorage {
            entities: Vec::new(),
            datas: Vec::with_capacity(tylen),
            component_tys: SparseSet::create_with_capacity(tylen),
            inserted_check: Vec::with_capacity(tylen),
        };
        let mut idx: usize = 0;
        while idx < tylen
            invariant
                ctymgr.wf(),
                tylen == ids@.len(),
                ids@ == group@,
                strictly_ascending(ids@),
                idx <= tylen,
                storage.wf(),
                storage@.tys == ids@.subrange(0, idx as int),
                storage@.sizes == Seq::new(
                    idx as nat,
                    |i: int| ctymgr.entries()[ids@[i] as int].size,
                ),
                storage@.cols == Seq::new(idx as nat, |i: int| Seq::<Seq<u8>>::empty()),
                storage@.locks == Seq::new(idx as nat, |i: int| 0u8),
                storage@.entities == Seq::<Entity>::empty(),
                storage@.pending == Seq::<usize>::empty(),
                forall|j: int| 0 <= j < idx ==> #[trigger] ids@[j] < ctymgr.entries().len(),
            decreases tylen - idx,
        {
            let ty = ids[idx];
            let entry = match ctymgr.get(ty) {
                Ok(entry) => entry,
                Err(e) => {
                    return Err(e);
                },
            };
            let ghost before = storage@;
            let ghost cm = storage.component_tys@;
            let column_entry = ArchetypeStorageComponentEntry { row: idx, locker: Locker::create() };
            proof {
                storage.lemma_lookup(ty);
                if before.has_ty(ty) {
                    let k = before.tys.index_of(ty);
                    assert(ids@[k] == ty);
                }
                assert(before.tys.len() == idx);
                assert(cm.dense.len() == idx);
                assert(ty < usize::MAX);
                law_insert_fresh(cm, ty, column_entry);
            }
            storage.component_tys.insert(ty, column_entry);
            let column = DVec::create(entry.size);
            assert(column.size() == ctymgr.entries()[ids@[idx as int] as int].size);
            let ghost datas_before = storage.datas@;
            storage.datas.push(column);
            assert(storage.datas@ == datas_before.push(column));
            idx = idx + 1;
            proof {
                let cm2 = storage.component_tys@;
                assert(cm2.dense == cm.dense.push(cm2.dense.last()));
                assert(storage@.tys =~= ids@.subrange(0, idx as int));
                assert forall|i: int| 0 <= i < idx implies storage@.sizes[i] == ctymgr.entries()[ids@[i] as int].size && storage@.cols[i] == Seq::<Seq<u8>>::empty()
                    && storage@.locks[i] == 0u8 by {
                    if i < idx - 1 {
                        assert(storage.datas@[i] == datas_before[i]);
                        assert(cm2.dense[i] == cm.dense[i]);
                        assert(before.locks[i] == cm.dense[i].1.locker.state());
                        assert(before.sizes[i] == datas_before[i].size());
                        assert(before.cols[i] == datas_before[i].elems());
                    }
                }
                assert(storage@.sizes =~= Seq::new(
                    idx as nat,
                    |i: int| ctymgr.entries()[ids@[i] as int].size,
                ));
                assert(storage@.cols =~= Seq::new(idx as nat, |i: int| Seq::<Seq<u8>>::empty()));
                assert(storage@.locks =~= Seq::new(idx as nat, |i: int| 0u8));
                assert(forall|d: int| 0 <= d < cm2.dense.len() ==> (#[trigger] cm2.dense[d]).1.row == d);
                assert(forall|r: int| 0 <= r < storage.datas@.len() ==> (#[trigger] storage.datas@[r]).wf());
            }
        }
        assert(ids@.subrange(0, tylen as int) =~= ids@);
        assert(storage@ =~= empty_storage(group@, ctymgr.entries()));
        Ok(storage)
    }
}

impl ArchetypeStorage {
    /// Tries to take the lock of `cty`'s column in `state`; reports whether it
    /// was taken. A lock that cannot be had now is left as it is.
    pub fn lock_component(&mut self, cty: ComponentTypeId, state: LockState) -> (r: Result<bool>)
        requires
            old(self).wf(),
        ensures
            final(self).wf(),
            r is Ok <==> old(self)@.has_ty(cty),
            r matches Ok(taken) ==> {
                let row = old(self)@.row(cty);
                let (after, t) = obtain(old(self)@.locks[row], state);
                &&& taken == t
                &&& final(self)@ == (StorageModel { locks: old(self)@.locks.update(row, after), ..old(self)@ })
            },
            r is Err ==> *final(self) == *old(self) && r == Err::<bool, RuntimeError>(
                RuntimeError::BadComponentType { ctyid: cty },
            ),
    {
        proof {
            self.lemma_lookup(cty);
        }
        let ghost before = *self;
        match self.component_tys.get_mut(cty) {
            Some(entry) => {
                let taken = entry.locker.try_obtain_lock(state);
                proof {
                    self.lemma_entry_changed(&before, cty);
                }
                Ok(taken)
            },
            None => Err(RuntimeError::BadComponentType { ctyid: cty }),
        }
    }

    /// Gives up a hold of `cty`'s column taken in `state`.
    pub fn unlock_component(&mut self, cty: ComponentTypeId, state: LockState) -> (r: Result<()>)
        requires
            old(self).wf(),
        ensures
            final(self).wf(),
            r is Ok <==> old(self)@.has_ty(cty),
            r is Ok ==> final(self)@ == (StorageModel {
                locks: old(self)@.locks.update(
                    old(self)@.row(cty),
                    release(old(self)@.locks[old(self)@.row(cty)], state),
                ),
                ..old(self)@
            }),
            r is Err ==> *final(self) == *old(self) && r == Err::<(), RuntimeError>(
                RuntimeError::BadComponentType { ctyid: cty },
            ),
    {
        proof {
            self.lemma_lookup(cty);
        }
        let ghost before = *self;
        match self.component_tys.get_mut(cty) {
            Some(entry) => {
                entry.locker.release_lock(state);
                proof {
                    self.lemma_entry_changed(&before, cty);
                }
                Ok(())
            },
            None => Err(RuntimeError::BadComponentType { ctyid: cty }),
        }
    }

    /// After the table entry of `cty` was replaced by one with the same row,
    /// only that column's lock state changed.
    proof fn lemma_entry_changed(&self, before: &ArchetypeStorage, cty: usize)
        requires
            before.wf(),
            before@.has_ty(cty),
            before.component_tys@.slot(cty) == Some(before@.row(cty) as usize),
            self.datas@ == before.datas@,
            self.entities@ == before.entities@,
            self.inserted_check@ == before.inserted_check@,
            self.component_tys@.sparse == before.component_tys@.sparse,
            self.component_tys@.dense.len() == before.component_tys@.dense.len(),
            forall|d: int|
                0 <= d < self.component_tys@.dense.len() && d != before@.row(cty) ==> #[trigger] self.component_tys@.dense[d]
                    == before.component_tys@.dense[d],
            self.component_tys@.dense[before@.row(cty)].0 == before.component_tys@.dense[before@.row(cty)].0,
            self.component_tys@.dense[before@.row(cty)].1.row == before.component_tys@.dense[before@.row(cty)].1.row,
        ensures
            self.wf(),
            self@ == (StorageModel {
                locks: before@.locks.update(
                    before@.row(cty),
                    self.component_tys@.dense[before@.row(cty)].1.locker.state(),
                ),
                ..before@
            }),
    {
        let row = before@.row(cty);
        let cm = self.component_tys@;
        let bm = before.component_tys@;
        assert forall|k: usize| #[trigger] cm.slot(k) == bm.slot(k) by {}
        assert forall|d: int| 0 <= d < cm.dense.len() implies (#[trigger] cm.dense[d]).0 == bm.dense[d].0 by {}
        assert(self@.tys =~= before@.tys);
        assert(self@.locks =~= before@.locks.update(row, cm.dense[row].1.locker.state()));
    }

    /// The bytes of `entity`'s component of type `cty`.
    pub fn get(&self, entity: Entity, cty: ComponentTypeId) -> (r: Result<&[u8]>)
        requires
            self.wf(),
            self@.has_entity(entity) && self@.has_ty(cty) ==> self@.column(entity)
                < self@.cols[self@.row(cty)].len(),
        ensures
            r is Ok <==> self@.has_entity(entity) && self@.has_ty(cty),
            r matches Ok(bytes) ==> bytes@ == self@.cols[self@.row(cty)][self@.column(entity)],
            !self@.has_entity(entity) ==> r == Err::<&[u8], RuntimeError>(
                RuntimeError::BadEntity { e: entity },
            ),
            self@.has_entity(entity) && !self@.has_ty(cty) ==> r == Err::<&[u8], RuntimeError>(
                RuntimeError::BadComponentType { ctyid: cty },
            ),
    {
        let coli = match self.get_entity_column(entity) {
            Ok(c) => c,
            Err(e) => {
                return Err(e);
            },
        };
        proof {
            self.lemma_lookup(cty);
        }
        let row = match self.component_tys.get(cty) {
            Some(entry) => entry.row,
            None => {
                return Err(RuntimeError::BadComponentType { ctyid: cty });
            },
        };
        if row < self.datas.len() {
            proof {
                let data = self.datas@[row as int];
                data.lemma_bytes_fit();
                assert(coli < data.count());
                assert(data.size() > 0);
                lemma_product_below(coli as int, data.count() as int, data.size() as int, data.bytes().len() as int);
            }
            Ok(self.datas[row].get(coli).unwrap())
        } else {
            Err(RuntimeError::BadComponentType { ctyid: cty })
        }
    }

    /// The bytes of `cty`'s column, component after component, or `None`
    /// when the storage has no such column.
    pub fn get_iter(&self, cty: ComponentTypeId) -> (r: Result<Option<&[u8]>>)
        requires
            self.wf(),
        ensures
            self@.has_ty(cty) ==> (r matches Ok(Some(bytes)) && column_bytes(
                bytes@,
                self@.sizes[self@.row(cty)],
                self@.cols[self@.row(cty)],
            )),
            !self@.has_ty(cty) ==> (r matches Ok(None)),
    {
        proof {
            self.lemma_lookup(cty);
        }
        if let Some(entry) = self.component_tys.get(cty) {
            let row = entry.row;
            if row < self.datas.len() {
                proof {
                    self.datas@[row as int].lemma_bytes_elems();
                }
                Ok(Some(self.datas[row].ptr()))
            } else {
                Err(RuntimeError::BadComponentType { ctyid: cty })
            }
        } else {
            Ok(None)
        }
    }

    /// The number of stored entities.
    pub fn get_iter_count(&self) -> (r: usize)
        ensures
            r == self@.entities.len(),
    {
        self.entities.len()
    }

    /// The entity in column position `i` is stored at position `i`: its
    /// components are the `i`-th of every column.
    pub proof fn lemma_entity_at(&self, i: int)
        requires
            self.wf(),
            0 <= i < self@.entities.len(),
        ensures
            self@.has_entity(self@.entities[i]),
            self@.column(self@.entities[i]) == i,
    {
        let es = self@.entities;
        assert(es.contains(es[i]));
        let c = es.index_of(es[i]);
        assert(0 <= c < es.len() && es[c] == es[i]);
    }

    /// The entity in column position `idx`.
    pub fn get_iter_entity(&self, idx: usize) -> (r: Entity)
        requires
            idx < self@.entities.len(),
        ensures
            r == self@.entities[idx as int],
    {
        self.entities[idx]
    }

    /// The position of `entity` in the columns.
    fn get_entity_column(&self, entity: Entity) -> (r: Result<usize>)
        requires
            self.wf(),
        ensures
            r is Ok <==> self@.has_entity(entity),
            r matches Ok(c) ==> c == self@.column(entity) && c < self@.entities.len(),
            r is Err ==> r == Err::<usize, RuntimeError>(RuntimeError::BadEntity { e: entity }),
    {
        let mut i: usize = 0;
        while i < self.entities.len()
            invariant
                self.wf(),
                i <= self.entities@.len(),
                forall|j: int| 0 <= j < i ==> self.entities@[j] != entity,
            decreases self.entities@.len() - i,
        {
            if self.entities[i] == entity {
                proof {
                    assert(self@.has_entity(entity));
                    let k = self@.column(entity);
                    assert(self.entities@[k] == entity);
                    if k != i {
                        assert(self.entities@.no_duplicates());
                    }
                }
                return Ok(i);
            }
            i = i + 1;
        }
        Err(RuntimeError::BadEntity { e: entity })
    }
}

/// An element index below the element count starts its element within the bytes.
proof fn lemma_product_below(idx: int, count: int, size: int, len: int)
    requires
        0 <= idx < count,
        size > 0,
        count == len / size,
        len >= 0,
    ensures
        idx * size <= len,
{
    assert(idx * size <= len) by (nonlinear_arith)
        requires
            0 <= idx < count,
            size > 0,
            count == len / size,
            len >= 0,
    ;
}

/// A storage without entities, with a column for each of `tys`, sized as
/// `entries` registered the type, and every lock open.
pub open spec fn empty_storage(tys: Seq<usize>, entries: Seq<ComponentTypeEntry>) -> StorageModel {
    StorageModel {
        tys,
        sizes: Seq::new(tys.len(), |i: int| entries[tys[i] as int].size),
        cols: Seq::new(tys.len(), |i: int| Seq::<Seq<u8>>::empty()),
        locks: Seq::new(tys.len(), |i: int| 0u8),
        entities: Seq::<Entity>::empty(),
        pending: Seq::<usize>::empty(),
    }
}

/// The model after `e` was appended to the entities and every type became
/// pending, as [`ArchetypeStorage::insert`] does.
pub open spec fn inserted_entity(m: StorageModel, e: Entity) -> StorageModel {
    StorageModel { entities: m.entities.push(e), pending: m.pending + m.tys, ..m }
}

/// Removing `e` does not panic: every column holds its component.
pub open spec fn removable_entity(m: StorageModel, e: Entity) -> bool {
    m.has_entity(e) ==> forall|row: int|
        0 <= row < m.cols.len() ==> m.sizes[row] > 0 && m.column(e) < (#[trigger] m.cols[row]).len()
}

/// The model after `e` was removed, as [`ArchetypeStorage::remove`] does.
pub open spec fn removed_entity(m: StorageModel, e: Entity) -> StorageModel {
    StorageModel {
        entities: swap_removed(m.entities, m.column(e)),
        cols: Seq::new(m.cols.len(), |row: int| swap_removed(m.cols[row], m.column(e))),
        ..m
    }
}

/// Removing entity `e` keeps every other stored entity among the entities.
pub proof fn lemma_removed_keeps_entities(m: StorageModel, e: Entity, f: Entity)
    requires
        m.has_entity(e),
        m.has_entity(f),
        f != e,
    ensures
        removed_entity(m, e).has_entity(f),
{
    let s = m.entities;
    let n = s.len();
    let ce = m.column(e);
    assert(0 <= ce < n && s[ce] == e);
    let j = choose|j: int| 0 <= j < n && s[j] == f;
    let t = removed_entity(m, e).entities;
    if j == n - 1 {
        assert(t[ce] == f);
    } else {
        assert(t[j] == f);
    }
}

/// Removing entity `e` keeps every other stored entity, with the same
/// component in every column, and `e` is gone: a read of another entity
/// after a removal gives what it gave before.
pub proof fn law_remove_keeps_others(m: StorageModel, e: Entity, f: Entity, row: int)
    requires
        m.entities.no_duplicates(),
        m.has_entity(e),
        m.has_entity(f),
        f != e,
        0 <= row < m.cols.len(),
        forall|r: int| 0 <= r < m.cols.len() ==> (#[trigger] m.cols[r]).len() == m.entities.len(),
    ensures
        removed_entity(m, e).has_entity(f),
        !removed_entity(m, e).has_entity(e),
        removed_entity(m, e).cols[row][removed_entity(m, e).column(f)] == m.cols[row][m.column(f)],
        removed_entity(m, e).cols[row].len() == removed_entity(m, e).entities.len(),
{
    let after = removed_entity(m, e);
    let n = m.entities.len();
    let ce = m.column(e);
    let cf = m.column(f);
    assert(m.entities[ce] == e);
    assert(m.entities[cf] == f);
    assert(ce != cf);
    let pos = if cf == n - 1 { ce } else { cf };
    assert(after.entities[pos] == f);
    assert(after.entities.contains(f));
    assert forall|i: int| 0 <= i < after.entities.len() implies after.entities[i] != e by {
        if i == ce {
            assert(after.entities[i] == m.entities[n - 1]);
            assert(ce != n - 1);
        } else {
            assert(after.entities[i] == m.entities[i]);
        }
    }
    let k = after.column(f);
    assert(after.entities[k] == f);
    assert(k == pos) by {
        if k != pos {
            let src = if k == ce { n - 1 } else { k };
            assert(after.entities[k] == m.entities[src]);
            assert(m.entities[src] == f);
            assert(src == cf);
        }
    }
    assert(after.cols[row] == swap_removed(m.cols[row], ce));
}

/// The model after component bytes `c` were appended to column `row`.
pub open spec fn appended(m: StorageModel, row: int, c: Seq<u8>) -> Seq<Seq<Seq<u8>>> {
    if 0 <= row < m.cols.len() { m.cols.update(
        row,
        m.cols[row] + Seq::new(
            if m.sizes[row] == 0 {
                0
            } else {
                1
            },
            |i: int| c.subrange(0, m.sizes[row] as int),
        ),
    ) } else { m.cols }
}

impl ArchetypeStorage {
    /// Starts storing `entity`: it is appended to the entities and every
    /// component type of the storage becomes pending. Refuses an entity that
    /// is stored already.
    pub fn insert(&mut self, entity: Entity) -> (r: Result<ArchetypeStorageInsert>)
        requires
            old(self).wf(),
        ensures
            final(self).wf(),
            r is Ok <==> !old(self)@.has_entity(entity),
            r is Ok ==> final(self)@ == inserted_entity(old(self)@, entity),
            r is Err ==> *final(self) == *old(self) && r == Err::<ArchetypeStorageInsert, RuntimeError>(
                RuntimeError::BadEntity { e: entity },
            ),
    {
        if self.get_entity_column(entity).is_ok() {
            return Err(RuntimeError::BadEntity { e: entity });
        }
        let ghost before = self@;
        self.entities.push(entity);
        proof {
            assert forall|a: int, b: int| 0 <= a < b < self.entities@.len() implies self.entities@[a]
                != self.entities@[b] by {
                if b == self.entities@.len() - 1 {
                    assert(before.entities[a] == self.entities@[a]);
                    assert(before.has_entity(self.entities@[a]));
                }
            }
        }
        Ok(ArchetypeStorageInsert::create(self))
    }

    /// Drops `entity` from the storage: its place in the entities and in
    /// every column is taken by the last entity's.
    pub fn remove(&mut self, entity: Entity) -> (r: Result<()>)
        requires
            old(self).wf(),
            removable_entity(old(self)@, entity),
        ensures
            final(self).wf(),
            r is Ok <==> old(self)@.has_entity(entity),
            r is Ok ==> final(self)@ == removed_entity(old(self)@, entity),
            r is Err ==> *final(self) == *old(self) && r == Err::<(), RuntimeError>(
                RuntimeError::BadEntity { e: entity },
            ),
    {
        let coli = match self.get_entity_column(entity) {
            Ok(c) => c,
            Err(e) => {
                return Err(e);
            },
        };
        let ghost before = self@;
        let ghost datas_before = self.datas@;
        let ghost tys_before = self.component_tys@;
        proof {
            assert forall|r: int| 0 <= r < datas_before.len() implies (#[trigger] datas_before[r]).wf() && datas_before[r].size() > 0 && coli < datas_before[r].count() by {
                assert(before == old(self)@);
                assert(old(self)@.has_entity(entity));
                assert(coli < old(self)@.cols[r].len());
                assert(before.sizes[r] > 0);
            }
        }
        self.entities.swap_remove(coli);
        let ghost entities_after = self.entities@;
        let mut row: usize = 0;
        while row < self.datas.len()
            invariant
                self.component_tys@ == tys_before,
                self.entities@ == entities_after,
                self.inserted_check@ == before.pending,
                self.datas@.len() == datas_before.len(),
                before.cols.len() == datas_before.len(),
                row <= self.datas@.len(),
                forall|r: int| 0 <= r < datas_before.len() ==> before.cols[r] == (#[trigger] datas_before[r]).elems() && before.sizes[r] == datas_before[r].size(),
                forall|r: int| 0 <= r < datas_before.len() ==> (#[trigger] datas_before[r]).wf() && datas_before[r].size() > 0 && coli < datas_before[r].count(),
                forall|r: int| 0 <= r < row ==> (#[trigger] self.datas@[r]).wf() && self.datas@[r].size() == datas_before[r].size() && self.datas@[r].elems() == swap_removed(datas_before[r].elems(), coli as int),
                forall|r: int| row <= r < self.datas@.len() ==> #[trigger] self.datas@[r] == datas_before[r],
            decreases self.datas@.len() - row,
        {
            let res = self.datas[row].swap_remove(coli);
            assert(res is Some);
            row = row + 1;
        }
        proof {
            let after = self@;
            assert(after.tys =~= before.tys);
            assert(after.sizes =~= before.sizes);
            assert(after.locks =~= before.locks);
            assert(after.cols =~= Seq::new(before.cols.len(), |r: int| swap_removed(before.cols[r], coli as int)));
            assert forall|a: int, b: int| 0 <= a < b < self.entities@.len() implies self.entities@[a]
                != self.entities@[b] by {
                let n = before.entities.len();
                let ea = if a == coli { before.entities[n - 1] } else { before.entities[a] };
                let eb = if b == coli { before.entities[n - 1] } else { before.entities[b] };
                assert(self.entities@[a] == ea && self.entities@[b] == eb);
            }
        }
        Ok(())
    }
}

/// A session that gives the components of the entity being inserted.
pub struct ArchetypeStorageInsert;

impl ArchetypeStorageInsert {
    /// Makes every component type of `storage` pending.
    pub fn create(storage: &mut ArchetypeStorage) -> (ins: ArchetypeStorageInsert)
        requires
            old(storage).wf(),
        ensures
            final(storage).wf(),
            final(storage)@ == (StorageModel { pending: old(storage)@.pending + old(storage)@.tys, ..old(storage)@ }),
    {
        let ghost before = storage@;
        let n = storage.component_tys.get_dense().len();
        let mut i: usize = 0;
        while i < n
            invariant
                n == before.tys.len(),
                i <= n,
                storage.wf(),
                storage@ == (StorageModel { pending: before.pending + before.tys.subrange(0, i as int), ..before }),
            decreases n - i,
        {
            let cty = storage.component_tys.get_dense()[i].0;
            let ghost prev = storage@;
            storage.inserted_check.push(cty);
            proof {
                assert(storage@.pending =~= before.pending + before.tys.subrange(0, i + 1));
                assert(storage@ =~= (StorageModel { pending: before.pending + before.tys.subrange(0, i + 1), ..before }));
                assert forall|k: int| 0 <= k < storage.inserted_check@.len() implies storage@.tys.contains(
                    #[trigger] storage.inserted_check@[k]) by {
                    if k < prev.pending.len() {
                        assert(prev.pending[k] == storage.inserted_check@[k]);
                    } else {
                        assert(storage.inserted_check@[k] == before.tys[i as int]);
                    }
                }
            }
            i = i + 1;
        }
        assert(before.tys.subrange(0, n as int) =~= before.tys);
        ArchetypeStorageInsert
    }

    /// Gives the component of type `component_ty`: its first pending
    /// occurrence is dropped (the last pending type moves into its place) and
    /// its bytes are appended to its column. Refuses a type that is not pending.
    pub fn insert(&mut self, storage: &mut ArchetypeStorage, component_ty: ComponentTypeId, c: &[u8]) -> (r: Result<()>)
        requires
            old(storage).wf(),
            old(storage)@.pending.contains(component_ty) ==> c@.len() >= old(storage)@.sizes[old(storage)@.row(component_ty)],
        ensures
            final(storage).wf(),
            r is Ok <==> old(storage)@.pending.contains(component_ty),
            r is Ok ==> final(storage)@ == (StorageModel {
                pending: swap_removed(old(storage)@.pending, first_index(old(storage)@.pending, component_ty)),
                cols: appended(old(storage)@, old(storage)@.row(component_ty), c@),
                ..old(storage)@
            }),
            r is Err ==> *final(storage) == *old(storage) && r == Err::<(), RuntimeError>(
                RuntimeError::BadComponentType { ctyid: component_ty },
            ),
    {
        let mut idx: usize = 0;
        while idx < storage.inserted_check.len() && storage.inserted_check[idx] != component_ty
            invariant
                idx <= storage.inserted_check@.len(),
                forall|j: int| 0 <= j < idx ==> storage.inserted_check@[j] != component_ty,
            decreases storage.inserted_check@.len() - idx,
        {
            idx = idx + 1;
        }
        if idx == storage.inserted_check.len() {
            return Err(RuntimeError::BadComponentType { ctyid: component_ty });
        }
        let ghost before = storage@;
        let ghost datas_before = storage.datas@;
        proof {
            assert(before.pending[idx as int] == component_ty);
            assert(first_index(before.pending, component_ty) == idx) by {
                let f = first_index(before.pending, component_ty);
                assert(0 <= f < before.pending.len() && before.pending[f] == component_ty && forall|j: int| 0 <= j < f ==> before.pending[j] != component_ty);
                if f < idx {
                } else if f > idx {
                }
            }
            storage.lemma_lookup(component_ty);
        }
        let ty = storage.inserted_check.swap_remove(idx);
        let row = storage.component_tys.get(ty).unwrap().row;
        proof {
            datas_before[row as int].lemma_bytes_elems();
        }
        storage.datas[row].resize(1, c);
        proof {
            let after = storage@;
            assert(after.tys =~= before.tys);
            assert(after.sizes =~= before.sizes);
            assert(after.locks =~= before.locks);
            assert(after.pending =~= swap_removed(before.pending, idx as int));
            assert(after.cols =~= appended(before, row as int, c@));
            assert forall|k: int| 0 <= k < storage.inserted_check@.len() implies storage@.tys.contains(
                #[trigger] storage.inserted_check@[k]) by {
                if k == idx {
                    assert(storage.inserted_check@[k] == before.pending[before.pending.len() - 1]);
                } else {
                    assert(storage.inserted_check@[k] == before.pending[k]);
                }
            }
        }
        Ok(())
    }

    /// Succeeds when no component type is pending; otherwise names the pending ones.
    pub fn done(&self, storage: &ArchetypeStorage) -> (r: Result<()>)
        ensures
            r is Ok <==> storage@.pending.len() == 0,
            r matches Err(e) ==> (e matches RuntimeError::ArchetypeStorageInsertIncomplete { missing } && missing@ == storage@.pending),
    {
        if storage.inserted_check.len() != 0 {
            let mut missing: Vec<ComponentTypeId> = Vec::new();
            let mut i: usize = 0;
            while i < storage.inserted_check.len()
                invariant
                    i <= storage.inserted_check@.len(),
                    missing@ == storage.inserted_check@.subrange(0, i as int),
                decreases storage.inserted_check@.len() - i,
            {
                missing.push(storage.inserted_check[i]);
                i = i + 1;
                assert(missing@ =~= storage.inserted_check@.subrange(0, i as int));
            }
            assert(missing@ =~= storage@.pending);
            Err(RuntimeError::ArchetypeStorageInsertIncomplete { missing })
        } else {
            Ok(())
        }
    }
}

/// The destination after the component of type `cty` with bytes `c` was
/// given to it, as [`ArchetypeStorageInsert::insert`] does.
pub open spec fn given(d: StorageModel, cty: usize, c: Seq<u8>) -> StorageModel {
    StorageModel {
        pending: swap_removed(d.pending, first_index(d.pending, cty)),
        cols: appended(d, d.row(cty), c),
        ..d
    }
}

/// The destination after the components `inserts` were given to it in
/// turn, and the type of the first one it refused, where it stopped.
pub open spec fn given_all(d: StorageModel, inserts: Seq<(usize, Seq<u8>)>) -> (StorageModel, Option<usize>)
    decreases inserts.len(),
{
    if inserts.len() == 0 {
        (d, None)
    } else {
        let (d1, refused) = given_all(d, inserts.drop_last());
        let (cty, c) = inserts.last();
        if refused is Some {
            (d1, refused)
        } else if d1.pending.contains(cty) {
            (given(d1, cty, c), None)
        } else {
            (d1, Some(cty))
        }
    }
}

/// The component at position `i` of `inserts` is reached, and taken, when
/// the components are given in turn to `d`.
pub open spec fn insert_taken(d: StorageModel, inserts: Seq<(usize, Seq<u8>)>, i: int) -> bool {
    let p = given_all(d, inserts.take(i));
    p.1 is None && p.0.pending.contains(inserts[i].0)
}

/// The component types of `inserts`.
pub open spec fn insert_ids(inserts: Seq<(usize, Seq<u8>)>) -> Seq<usize> {
    inserts.map_values(|p: (usize, Seq<u8>)| p.0)
}


/// Swap-removing position `i` of a sequence without repeats keeps it without
/// repeats and drops exactly the element at `i`.
proof fn lemma_swap_removed_contains(s: Seq<usize>, i: int)
    requires
        s.no_duplicates(),
        0 <= i < s.len(),
    ensures
        swap_removed(s, i).no_duplicates(),
        forall|x: usize| swap_removed(s, i).contains(x) <==> s.contains(x) && x != s[i],
{
    let n = s.len();
    let t = swap_removed(s, i);
    assert(t.len() == n - 1);
    assert forall|j: int| 0 <= j < t.len() implies #[trigger] t[j] == if j == i { s[n - 1] } else { s[j] } by {
    }
    assert forall|a: int, b: int| 0 <= a < b < t.len() implies t[a] != t[b] by {
        let sa = if a == i { n - 1 } else { a };
        let sb = if b == i { n - 1 } else { b };
        assert(t[a] == s[sa] && t[b] == s[sb]);
    }
    assert forall|x: usize| t.contains(x) <==> s.contains(x) && x != s[i] by {
        if t.contains(x) {
            let j = choose|j: int| 0 <= j < t.len() && t[j] == x;
            let sj = if j == i { n - 1 } else { j };
            assert(s[sj] == x);
        }
        if s.contains(x) && x != s[i] {
            let j = choose|j: int| 0 <= j < s.len() && s[j] == x;
            if j == n - 1 {
                assert(t[i] == x);
            } else {
                assert(t[j] == x);
            }
        }
    }
}

/// The component that `comps` gives for type `c`, as the column keeps it.
pub open spec fn component_for(comps: Seq<(usize, Seq<u8>)>, c: usize, size: usize) -> Seq<u8> {
    comps[insert_ids(comps).index_of(c)].1.subrange(0, size as int)
}

/// The state of an insert session after the first `k` of `comps` were
/// given: nothing refused, the types given so far are no longer pending,
/// and their columns hold the given components.
spec fn session_state(m: StorageModel, e: Entity, comps: Seq<(usize, Seq<u8>)>, k: int) -> bool {
    let p = given_all(inserted_entity(m, e), comps.take(k));
    let d = p.0;
    let ids = insert_ids(comps).take(k);
    &&& p.1 is None
    &&& d.tys == m.tys
    &&& d.sizes == m.sizes
    &&& d.entities == m.entities.push(e)
    &&& d.cols.len() == m.cols.len()
    &&& d.pending.no_duplicates()
    &&& forall|x: usize| #[trigger] d.pending.contains(x) <==> m.tys.contains(x) && !ids.contains(x)
    &&& forall|r: int|
        0 <= r < m.cols.len() ==> #[trigger] d.cols[r] == if ids.contains(m.tys[r]) {
            m.cols[r].push(component_for(comps, m.tys[r], m.sizes[r]))
        } else {
            m.cols[r]
        }
}

/// The state of an insert session after the first `k` of `comps` were given.
proof fn lemma_session_prefix(m: StorageModel, e: Entity, comps: Seq<(usize, Seq<u8>)>, k: int)
    requires
        m.complete(),
        m.cols.len() == m.tys.len(),
        m.sizes.len() == m.tys.len(),
        m.tys.no_duplicates(),
        insert_ids(comps).no_duplicates(),
        forall|c: usize| insert_ids(comps).contains(c) <==> m.tys.contains(c),
        forall|i: int| 0 <= i < comps.len() ==> comps[i].1.len() >= m.sizes[m.row(comps[i].0)],
        forall|r: int| 0 <= r < m.sizes.len() ==> m.sizes[r] > 0,
        0 <= k <= comps.len(),
    ensures
        session_state(m, e, comps, k),
    decreases k,
{
    let ids_all = insert_ids(comps);
    if k == 0 {
        let d0 = inserted_entity(m, e);
        assert(comps.take(0) =~= Seq::<(usize, Seq<u8>)>::empty());
        assert(ids_all.take(0) =~= Seq::<usize>::empty());
        assert(d0.pending =~= m.tys);
        assert(given_all(d0, comps.take(0)) == (d0, None::<usize>));
        assert forall|x: usize| d0.pending.contains(x) <==> m.tys.contains(x) && !ids_all.take(0).contains(x) by {
        }
        assert(session_state(m, e, comps, k));
    } else {
        lemma_session_prefix(m, e, comps, k - 1);
        assert(session_state(m, e, comps, k - 1));
        let d = given_all(inserted_entity(m, e), comps.take(k - 1)).0;
        assert(comps.take(k).drop_last() =~= comps.take(k - 1));
        assert(comps.take(k).last() == comps[k - 1]);
        let (c, b) = comps[k - 1];
        assert(ids_all[k - 1] == c);
        assert(ids_all.contains(c));
        let prev_ids = ids_all.take(k - 1);
        let ids = ids_all.take(k);
        assert(!prev_ids.contains(c)) by {
            if prev_ids.contains(c) {
                let j = choose|j: int| 0 <= j < prev_ids.len() && prev_ids[j] == c;
                assert(ids_all[j] == ids_all[k - 1]);
            }
        }
        assert(d.pending.contains(c));
        let i = first_index(d.pending, c);
        assert(0 <= i < d.pending.len() && d.pending[i] == c);
        lemma_swap_removed_contains(d.pending, i);
        let row = m.row(c);
        assert(m.tys.contains(c));
        assert(0 <= row < m.tys.len() && m.tys[row] == c);
        assert(ids_all.index_of(c) == k - 1) by {
            let j = ids_all.index_of(c);
            assert(ids_all[j] == c);
            if j != k - 1 {
                assert(ids_all[j] == ids_all[k - 1]);
            }
        }
        let after = given(d, c, b);
        assert(ids =~= prev_ids.push(c));
        assert forall|x: usize| ids.contains(x) <==> prev_ids.contains(x) || x == c by {
            if prev_ids.contains(x) {
                let j = choose|j: int| 0 <= j < prev_ids.len() && prev_ids[j] == x;
                assert(ids[j] == x);
            }
            if x == c {
                assert(ids[k - 1] == c);
            }
            if ids.contains(x) {
                let j = choose|j: int| 0 <= j < ids.len() && ids[j] == x;
                if j < k - 1 {
                    assert(prev_ids[j] == x);
                }
            }
        }
        assert(given_all(inserted_entity(m, e), comps.take(k)) == (after, None::<usize>));
        assert forall|r: int| 0 <= r < m.cols.len() implies #[trigger] after.cols[r] == if ids.contains(m.tys[r]) {
            m.cols[r].push(component_for(comps, m.tys[r], m.sizes[r]))
        } else {
            m.cols[r]
        } by {
            if r == row {
                assert(after.cols[r] == d.cols[r] + Seq::new(1, |j: int| b.subrange(0, m.sizes[row] as int)));
                assert(m.cols[r].push(component_for(comps, m.tys[r], m.sizes[r])) =~= m.cols[r] + Seq::new(1, |j: int| b.subrange(0, m.sizes[row] as int)));
            } else {
                assert(m.tys[r] != c);
            }
        }
        let p = given_all(inserted_entity(m, e), comps.take(k));
        assert(p.0 == after && p.1 is None);
        assert forall|x: usize| #[trigger] p.0.pending.contains(x) <==> m.tys.contains(x) && !ids.contains(x) by {
            assert(d.pending.contains(x) <==> m.tys.contains(x) && !prev_ids.contains(x));
            assert(after.pending.contains(x) <==> d.pending.contains(x) && x != d.pending[i]);
            assert(ids.contains(x) <==> prev_ids.contains(x) || x == c);
        }
        assert forall|r: int| 0 <= r < m.cols.len() implies #[trigger] p.0.cols[r] == if ids.contains(m.tys[r]) {
            m.cols[r].push(component_for(comps, m.tys[r], m.sizes[r]))
        } else {
            m.cols[r]
        } by {
            assert(after.cols[r] == if ids.contains(m.tys[r]) {
                m.cols[r].push(component_for(comps, m.tys[r], m.sizes[r]))
            } else {
                m.cols[r]
            });
        }
        assert(session_state(m, e, comps, k));
    }
}

/// Inserting entity `e` into a complete storage and then giving each of its
/// component types exactly once, in any order, completes the insert; each
/// column then holds, at `e`'s position, the component given for its type,
/// and the components of the other entities stay as they were. A read
/// after the insert gives back what was written (for types of size > 0).
pub proof fn law_insert_then_read(m: StorageModel, e: Entity, comps: Seq<(usize, Seq<u8>)>)
    requires
        m.complete(),
        m.cols.len() == m.tys.len(),
        m.sizes.len() == m.tys.len(),
        m.tys.no_duplicates(),
        !m.has_entity(e),
        insert_ids(comps).no_duplicates(),
        forall|c: usize| insert_ids(comps).contains(c) <==> m.tys.contains(c),
        forall|i: int| 0 <= i < comps.len() ==> comps[i].1.len() >= m.sizes[m.row(comps[i].0)],
        forall|r: int| 0 <= r < m.sizes.len() ==> m.sizes[r] > 0,
    ensures
        ({
            let (d, refused) = given_all(inserted_entity(m, e), comps);
            &&& refused is None
            &&& d.complete()
            &&& d.entities == m.entities.push(e)
            &&& d.column(e) == m.entities.len()
            &&& forall|i: int|
                0 <= i < comps.len() ==> #[trigger] d.cols[d.row(comps[i].0)][d.column(e)]
                    == comps[i].1.subrange(0, m.sizes[m.row(comps[i].0)] as int)
            &&& forall|r: int, j: int|
                0 <= r < m.cols.len() && 0 <= j < m.entities.len() ==> #[trigger] d.cols[r][j] == m.cols[r][j]
        }),
{
    lemma_session_prefix(m, e, comps, comps.len() as int);
    assert(session_state(m, e, comps, comps.len() as int));
    assert(comps.take(comps.len() as int) =~= comps);
    let ids = insert_ids(comps);
    assert(ids.take(comps.len() as int) =~= ids);
    let (d, refused) = given_all(inserted_entity(m, e), comps);
    assert(given_all(inserted_entity(m, e), comps.take(comps.len() as int)) == (d, refused));
    assert(forall|x: usize| d.pending.contains(x) <==> m.tys.contains(x) && !ids.contains(x));
    assert(d.pending.len() == 0) by {
        if d.pending.len() > 0 {
            let x = d.pending[0];
            assert(d.pending.contains(x));
            assert(m.tys.contains(x));
            assert(ids.contains(x));
        }
    }
    assert forall|r: int| 0 <= r < d.cols.len() implies (#[trigger] d.cols[r]).len() == d.entities.len() by {
        assert(ids.contains(m.tys[r]));
        assert(m.cols[r].len() == m.entities.len());
    }
    assert(d.column(e) == m.entities.len()) by {
        let j = d.entities.index_of(e);
        assert(d.entities[m.entities.len() as int] == e);
        assert(d.entities.contains(e));
        if j < m.entities.len() {
            assert(m.entities[j] == e);
        }
    }
    assert forall|i: int| 0 <= i < comps.len() implies #[trigger] d.cols[d.row(comps[i].0)][d.column(e)]
        == comps[i].1.subrange(0, m.sizes[m.row(comps[i].0)] as int) by {
        let c = comps[i].0;
        assert(ids[i] == c);
        assert(ids.contains(c));
        let row = m.row(c);
        assert(m.tys.contains(c));
        assert(m.tys[row] == c);
        assert(ids.index_of(c) == i) by {
            let j = ids.index_of(c);
            assert(ids[j] == c);
            if j != i {
                assert(ids[j] == ids[i]);
            }
        }
    }
    assert forall|r: int, j: int| 0 <= r < m.cols.len() && 0 <= j < m.entities.len() implies #[trigger] d.cols[r][j]
        == m.cols[r][j] by {
        assert(ids.contains(m.tys[r]));
        assert(m.cols[r].len() == m.entities.len());
    }
}

/// Source and destination after the first `k` columns of `s` were moved
/// over for the entity at position `coli`: each component of a type that
/// the destination still takes was given to it, the others were left
/// behind; the source keeps its columns until the entity is removed from it.
#[verifier::opaque]
pub open spec fn moved(s: StorageModel, d: StorageModel, coli: int, k: nat) -> (StorageModel, StorageModel)
    decreases k,
{
    if k == 0 {
        (s, d)
    } else {
        let (s1, d1) = moved(s, d, coli, (k - 1) as nat);
        let r = k - 1;
        if d1.pending.contains(s.tys[r]) {
            (s1, given(d1, s.tys[r], s.cols[r][coli]))
        } else {
            (s1, d1)
        }
    }
}

/// The destination accepts the component of source column `r` once the
/// columns before it were moved.
pub open spec fn accepts(s: StorageModel, d: StorageModel, coli: int, r: int) -> bool {
    moved(s, d, coli, r as nat).1.pending.contains(s.tys[r])
}

/// Moving the columns of `s` over into `d0` does not panic: every column
/// whose component the destination takes holds the entity's component, and
/// the destination's column of that type takes no more bytes than the
/// component has.
pub open spec fn movable(s: StorageModel, d0: StorageModel, coli: int) -> bool {
    forall|r: int|
        0 <= r < s.tys.len() && #[trigger] accepts(s, d0, coli, r) ==> {
            &&& s.sizes[r] > 0
            &&& coli < s.cols[r].len()
            &&& d0.tys.contains(s.tys[r]) ==> d0.sizes[d0.tys.index_of(s.tys[r])] <= s.sizes[r]
        }
}

impl ArchetypeStorage {
    /// Starts inserting `entity` into `dst` and copies its components from the
    /// columns of `src` over, column by column; `src` is left as it was, for
    /// the entity to be removed from it once the move is complete. Stops
    /// with an error at the first column whose type `dst` does not take.
    pub fn copy_entity(src: &mut Self, dst: &mut Self, entity: Entity) -> (r: Result<ArchetypeStorageInsert>)
        requires
            old(src).wf(),
            old(dst).wf(),
            old(src)@.has_entity(entity) && !old(dst)@.has_entity(entity) ==> movable(
                old(src)@,
                StorageModel {
                    entities: old(dst)@.entities.push(entity),
                    pending: old(dst)@.pending + old(dst)@.tys,
                    ..old(dst)@
                },
                old(src)@.column(entity),
            ),
        ensures
            final(src).wf(),
            final(dst).wf(),
            !old(src)@.has_entity(entity) ==> r == Err::<ArchetypeStorageInsert, RuntimeError>(
                RuntimeError::BadEntity { e: entity },
            ) && final(src)@ == old(src)@ && final(dst)@ == old(dst)@,
            old(src)@.has_entity(entity) && old(dst)@.has_entity(entity) ==> r == Err::<
                ArchetypeStorageInsert,
                RuntimeError,
            >(RuntimeError::BadEntity { e: entity }) && final(src)@ == old(src)@ && final(dst)@
                == old(dst)@,
            old(src)@.has_entity(entity) && !old(dst)@.has_entity(entity) ==> {
                let s = old(src)@;
                let coli = s.column(entity);
                let d0 = StorageModel {
                    entities: old(dst)@.entities.push(entity),
                    pending: old(dst)@.pending + old(dst)@.tys,
                    ..old(dst)@
                };
                let n = s.tys.len() as int;
                &&& r is Ok
                &&& (final(src)@, final(dst)@) == moved(s, d0, coli, n as nat)
            },
    {
        let coli = match src.get_entity_column(entity) {
            Ok(c) => c,
            Err(e) => {
                return Err(e);
            },
        };
        let mut insert = match dst.insert(entity) {
            Ok(ins) => ins,
            Err(e) => {
                return Err(e);
            },
        };
        let ghost s = src@;
        let ghost d0 = dst@;
        proof {
            src.lemma_shape();
            dst.lemma_shape();
            assert(s == old(src)@);
            assert(movable(s, d0, coli as int));
            lemma_moved_zero(s, d0, coli as int);
        }
        let n = src.datas.len();
        let mut r: usize = 0;
        while r < n
            invariant
                s == old(src)@,
                old(src)@.has_entity(entity),
                !old(dst)@.has_entity(entity),
                d0 == (StorageModel {
                    entities: old(dst)@.entities.push(entity),
                    pending: old(dst)@.pending + old(dst)@.tys,
                    ..old(dst)@
                }),
                n == s.tys.len(),
                s.cols.len() == s.tys.len(),
                s.sizes.len() == s.tys.len(),
                r <= n,
                coli == s.column(entity),
                coli < s.entities.len(),
                src.wf(),
                dst.wf(),
                movable(s, d0, coli as int),
                (src@, dst@) == moved(s, d0, coli as int, r as nat),
            decreases n - r,
        {
            proof {
                lemma_moved_shape(s, d0, coli as int, r as nat);
                lemma_moved_step(s, d0, coli as int, r as nat);
                src.lemma_shape();
            }
            let ghost d1 = dst@;
            let cty = src.component_tys.get_dense()[r].0;
            proof {
                assert(cty == s.tys[r as int]);
            }
            if dst.pending_has(cty) {
                proof {
                    assert(accepts(s, d0, coli as int, r as int));
                    let data = src.datas@[r as int];
                    data.lemma_bytes_fit();
                    assert(src@.cols[r as int] == s.cols[r as int]);
                    assert(coli < data.count());
                    lemma_product_below(coli as int, data.count() as int, data.size() as int, data.bytes().len() as int);
                }
                let c = src.datas[r].get(coli).unwrap();
                proof {
                    let data = src.datas@[r as int];
                    crate::data::dvec::lemma_index_in_elem(coli as int, 0, data.size() as int, data.count() as int);
                    crate::data::dvec::lemma_count_mul(data.bytes(), data.size());
                    assert(c@ == s.cols[r as int][coli as int]);
                    assert(c@.len() == s.sizes[r as int]);
                    dst.lemma_pending_typed(cty);
                }
                let res = insert.insert(dst, cty, c);
                assert(res is Ok);
            }
            r = r + 1;
        }
        Ok(insert)
    }
}

/// One more moved column: the destination is given that column's
/// component if it still takes its type.
proof fn lemma_moved_step(s: StorageModel, d: StorageModel, coli: int, k: nat)
    ensures
        moved(s, d, coli, k + 1) == ({
            let (s1, d1) = moved(s, d, coli, k);
            if d1.pending.contains(s.tys[k as int]) {
                (s1, given(d1, s.tys[k as int], s.cols[k as int][coli]))
            } else {
                (s1, d1)
            }
        }),
{
    reveal(moved);
}

/// Moving columns leaves the source as it was.
pub proof fn lemma_moved_source(s: StorageModel, d: StorageModel, coli: int, k: nat)
    ensures
        moved(s, d, coli, k).0 == s,
    decreases k,
{
    reveal(moved);
    if k > 0 {
        lemma_moved_source(s, d, coli, (k - 1) as nat);
    }
}

/// Giving a component only appends to a column: the entities, the types and
/// every component held before stay as they were.
pub proof fn lemma_given_keeps(d: StorageModel, cty: usize, c: Seq<u8>)
    ensures
        given(d, cty, c).entities == d.entities,
        given(d, cty, c).tys == d.tys,
        given(d, cty, c).cols.len() == d.cols.len(),
        forall|r: int| 0 <= r < d.cols.len() ==> #[trigger] given(d, cty, c).cols[r].len() >= d.cols[r].len(),
        forall|r: int, j: int|
            0 <= r < d.cols.len() && 0 <= j < d.cols[r].len() ==> #[trigger] given(d, cty, c).cols[r][j]
                == d.cols[r][j],
{
}

/// Giving components in turn keeps what was held before, as one give does.
pub proof fn lemma_given_all_keeps(d: StorageModel, inserts: Seq<(usize, Seq<u8>)>)
    ensures
        given_all(d, inserts).0.entities == d.entities,
        given_all(d, inserts).0.tys == d.tys,
        given_all(d, inserts).0.cols.len() == d.cols.len(),
        forall|r: int| 0 <= r < d.cols.len() ==> #[trigger] given_all(d, inserts).0.cols[r].len() >= d.cols[r].len(),
        forall|r: int, j: int|
            0 <= r < d.cols.len() && 0 <= j < d.cols[r].len() ==> #[trigger] given_all(d, inserts).0.cols[r][j]
                == d.cols[r][j],
    decreases inserts.len(),
{
    if inserts.len() > 0 {
        let rest = inserts.drop_last();
        lemma_given_all_keeps(d, rest);
        let d1 = given_all(d, rest).0;
        let (cty, c) = inserts.last();
        lemma_given_keeps(d1, cty, c);
        assert forall|r: int, j: int|
            0 <= r < d.cols.len() && 0 <= j < d.cols[r].len() implies #[trigger] given_all(d, inserts).0.cols[r][j]
                == d.cols[r][j] by {
            assert(d1.cols[r].len() >= d.cols[r].len());
            assert(d1.cols[r][j] == d.cols[r][j]);
        }
        assert forall|r: int| 0 <= r < d.cols.len() implies #[trigger] given_all(d, inserts).0.cols[r].len()
            >= d.cols[r].len() by {
            assert(d1.cols[r].len() >= d.cols[r].len());
        }
    }
}

/// Moving columns keeps what the destination held before.
pub proof fn lemma_moved_keeps(s: StorageModel, d: StorageModel, coli: int, k: nat)
    ensures
        moved(s, d, coli, k).1.entities == d.entities,
        moved(s, d, coli, k).1.tys == d.tys,
        moved(s, d, coli, k).1.cols.len() == d.cols.len(),
        forall|r: int| 0 <= r < d.cols.len() ==> #[trigger] moved(s, d, coli, k).1.cols[r].len() >= d.cols[r].len(),
        forall|r: int, j: int|
            0 <= r < d.cols.len() && 0 <= j < d.cols[r].len() ==> #[trigger] moved(s, d, coli, k).1.cols[r][j]
                == d.cols[r][j],
    decreases k,
{
    reveal(moved);
    if k > 0 {
        lemma_moved_keeps(s, d, coli, (k - 1) as nat);
        let d1 = moved(s, d, coli, (k - 1) as nat).1;
        let cty = s.tys[k - 1];
        lemma_given_keeps(d1, cty, s.cols[k - 1][coli]);
        assert forall|r: int, j: int|
            0 <= r < d.cols.len() && 0 <= j < d.cols[r].len() implies #[trigger] moved(s, d, coli, k).1.cols[r][j]
                == d.cols[r][j] by {
            assert(d1.cols[r].len() >= d.cols[r].len());
            assert(d1.cols[r][j] == d.cols[r][j]);
        }
        assert forall|r: int| 0 <= r < d.cols.len() implies #[trigger] moved(s, d, coli, k).1.cols[r].len()
            >= d.cols[r].len() by {
            assert(d1.cols[r].len() >= d.cols[r].len());
        }
    }
}

/// Moving no column changes nothing.
pub proof fn lemma_moved_zero(s: StorageModel, d: StorageModel, coli: int)
    ensures
        moved(s, d, coli, 0) == (s, d),
{
    reveal(moved);
}

/// Moving columns keeps the shapes of the source and destination: the same
/// types, sizes and column counts, and source columns past `k` untouched.
pub proof fn lemma_moved_shape(s: StorageModel, d: StorageModel, coli: int, k: nat)
    requires
        k <= s.tys.len(),
        s.cols.len() == s.tys.len(),
    ensures
        moved(s, d, coli, k).0.tys == s.tys,
        moved(s, d, coli, k).0.sizes == s.sizes,
        moved(s, d, coli, k).0.cols.len() == s.cols.len(),
        forall|r: int| k <= r < s.cols.len() ==> #[trigger] moved(s, d, coli, k).0.cols[r] == s.cols[r],
        moved(s, d, coli, k).0.entities == s.entities,
        moved(s, d, coli, k).1.tys == d.tys,
        moved(s, d, coli, k).1.sizes == d.sizes,
        moved(s, d, coli, k).1.entities == d.entities,
        moved(s, d, coli, k).1.cols.len() == d.cols.len(),
    decreases k,
{
    reveal(moved);
    if k > 0 {
        lemma_moved_shape(s, d, coli, (k - 1) as nat);
        let d1 = moved(s, d, coli, (k - 1) as nat).1;
        let cty = s.tys[k - 1];
        assert(appended(d1, d1.row(cty), s.cols[k - 1][coli]).len() == d1.cols.len());
    }
}

/// The bytes of the last component of type `c` in `inserts`, if any.
pub open spec fn last_inserted(inserts: Seq<(usize, Seq<u8>)>, c: usize) -> Option<Seq<u8>>
    decreases inserts.len(),
{
    if inserts.len() == 0 {
        None
    } else if inserts.last().0 == c {
        Some(inserts.last().1)
    } else {
        last_inserted(inserts.drop_last(), c)
    }
}

/// `d` is `t` receiving `e`, with the types in `done` given (their
/// components `val` appended to their columns) and the others still pending.
spec fn ledger(t: StorageModel, e: Entity, d: StorageModel, done: Set<usize>, val: spec_fn(usize) -> Seq<u8>) -> bool {
    &&& d.tys == t.tys
    &&& d.sizes == t.sizes
    &&& d.entities == t.entities.push(e)
    &&& d.cols.len() == t.cols.len()
    &&& d.pending.no_duplicates()
    &&& forall|x: usize| #[trigger] d.pending.contains(x) <==> t.tys.contains(x) && !done.contains(x)
    &&& forall|r: int|
        0 <= r < t.cols.len() ==> #[trigger] d.cols[r] == if done.contains(t.tys[r]) {
            t.cols[r].push(val(t.tys[r]).subrange(0, t.sizes[r] as int))
        } else {
            t.cols[r]
        }
}

/// The well-shaped storages a move goes into: every type once, each of
/// positive size, no insert pending.
spec fn receivable(t: StorageModel) -> bool {
    &&& t.complete()
    &&& t.cols.len() == t.tys.len()
    &&& t.sizes.len() == t.tys.len()
    &&& t.tys.no_duplicates()
    &&& forall|r: int| 0 <= r < t.sizes.len() ==> t.sizes[r] > 0
}

/// Giving a pending type adds it to the given ones.
proof fn lemma_ledger_give(
    t: StorageModel,
    e: Entity,
    d: StorageModel,
    done: Set<usize>,
    val: spec_fn(usize) -> Seq<u8>,
    c: usize,
    b: Seq<u8>,
    val2: spec_fn(usize) -> Seq<u8>,
)
    requires
        receivable(t),
        ledger(t, e, d, done, val),
        d.pending.contains(c),
        val2(c) == b,
        forall|x: usize| x != c && done.contains(x) ==> val2(x) == val(x),
    ensures
        ledger(t, e, given(d, c, b), done.insert(c), val2),
{
    let i = first_index(d.pending, c);
    assert(0 <= i < d.pending.len() && d.pending[i] == c);
    lemma_swap_removed_contains(d.pending, i);
    let row = t.row(c);
    assert(t.tys.contains(c));
    assert(0 <= row < t.tys.len() && t.tys[row] == c);
    assert(!done.contains(c));
    let after = given(d, c, b);
    assert forall|x: usize| #[trigger] after.pending.contains(x) <==> t.tys.contains(x) && !done.insert(c).contains(x) by {
        assert(after.pending.contains(x) <==> d.pending.contains(x) && x != c);
    }
    assert forall|r: int| 0 <= r < t.cols.len() implies #[trigger] after.cols[r] == if done.insert(c).contains(t.tys[r]) {
        t.cols[r].push(val2(t.tys[r]).subrange(0, t.sizes[r] as int))
    } else {
        t.cols[r]
    } by {
        if r == row {
            assert(d.cols[r] == t.cols[r]);
            assert(after.cols[r] =~= t.cols[r].push(b.subrange(0, t.sizes[row] as int)));
        } else {
            assert(t.tys[r] != c);
            assert(after.cols[r] == d.cols[r]);
            if done.contains(t.tys[r]) {
                assert(val2(t.tys[r]) == val(t.tys[r]));
            }
        }
    }
}

/// Moving the columns of `s` for the entity at `coli` into `t` receiving
/// `e` gives exactly the types of `s` that `t` has, with `s`'s components.
proof fn lemma_ledger_moved(t: StorageModel, e: Entity, s: StorageModel, coli: int, k: nat)
    requires
        receivable(t),
        !t.has_entity(e),
        s.tys.no_duplicates(),
        k <= s.tys.len(),
    ensures
        ledger(
            t,
            e,
            moved(s, inserted_entity(t, e), coli, k).1,
            Set::new(|x: usize| t.tys.contains(x) && s.tys.take(k as int).contains(x)),
            |x: usize| s.cols[s.row(x)][coli],
        ),
    decreases k,
{
    let val = |x: usize| s.cols[s.row(x)][coli];
    let d0 = inserted_entity(t, e);
    if k == 0 {
        lemma_moved_zero(s, d0, coli);
        assert(d0.pending =~= t.tys);
        assert(s.tys.take(0) =~= Seq::<usize>::empty());
        let done = Set::new(|x: usize| t.tys.contains(x) && s.tys.take(0).contains(x));
        assert forall|r: int| 0 <= r < t.cols.len() implies #[trigger] d0.cols[r] == if done.contains(t.tys[r]) {
            t.cols[r].push(val(t.tys[r]).subrange(0, t.sizes[r] as int))
        } else {
            t.cols[r]
        } by {
            assert(!s.tys.take(0).contains(t.tys[r]));
        }
    } else {
        let j = (k - 1) as nat;
        lemma_ledger_moved(t, e, s, coli, j);
        lemma_moved_step(s, d0, coli, j);
        let done_j = Set::new(|x: usize| t.tys.contains(x) && s.tys.take(j as int).contains(x));
        let done_k = Set::new(|x: usize| t.tys.contains(x) && s.tys.take(k as int).contains(x));
        let c = s.tys[j as int];
        assert(s.tys.take(k as int) =~= s.tys.take(j as int).push(c));
        assert(!s.tys.take(j as int).contains(c)) by {
            if s.tys.take(j as int).contains(c) {
                let w = choose|w: int| 0 <= w < j && s.tys.take(j as int)[w] == c;
                assert(s.tys[w] == s.tys[j as int]);
            }
        }
        assert forall|x: usize| s.tys.take(k as int).contains(x) <==> s.tys.take(j as int).contains(x) || x == c by {
            if s.tys.take(k as int).contains(x) {
                let w = choose|w: int| 0 <= w < k && s.tys.take(k as int)[w] == x;
                if w < j {
                    assert(s.tys.take(j as int)[w] == x);
                }
            }
            if s.tys.take(j as int).contains(x) {
                let w = choose|w: int| 0 <= w < j && s.tys.take(j as int)[w] == x;
                assert(s.tys.take(k as int)[w] == x);
            }
            if x == c {
                assert(s.tys.take(k as int)[j as int] == x);
            }
        }
        let dj = moved(s, d0, coli, j).1;
        if dj.pending.contains(c) {
            assert(s.row(c) == j) by {
                let w = s.tys.index_of(c);
                assert(s.tys.contains(c));
                assert(0 <= w < s.tys.len() && s.tys[w] == c);
            }
            lemma_ledger_give(t, e, dj, done_j, val, c, s.cols[j as int][coli], val);
            assert(done_j.insert(c) =~= done_k);
        } else {
            assert(!t.tys.contains(c));
            assert(done_j =~= done_k);
        }
    }
}

/// Then giving `inserts` in turn, none refused, gives their types too, each
/// with the last component given for it.
proof fn lemma_ledger_given(
    t: StorageModel,
    e: Entity,
    d: StorageModel,
    done: Set<usize>,
    val: spec_fn(usize) -> Seq<u8>,
    inserts: Seq<(usize, Seq<u8>)>,
)
    requires
        receivable(t),
        ledger(t, e, d, done, val),
        given_all(d, inserts).1 is None,
    ensures
        ledger(
            t,
            e,
            given_all(d, inserts).0,
            done.union(Set::new(|x: usize| last_inserted(inserts, x) is Some)),
            |x: usize| if last_inserted(inserts, x) is Some { last_inserted(inserts, x)->0 } else { val(x) },
        ),
    decreases inserts.len(),
{
    let lv = |x: usize| if last_inserted(inserts, x) is Some { last_inserted(inserts, x)->0 } else { val(x) };
    let ld = done.union(Set::new(|x: usize| last_inserted(inserts, x) is Some));
    if inserts.len() == 0 {
        assert(ld =~= done);
    } else {
        let rest = inserts.drop_last();
        let (c, b) = inserts.last();
        assert(given_all(d, rest).1 is None);
        lemma_ledger_given(t, e, d, done, val, rest);
        let d1 = given_all(d, rest).0;
        let done1 = done.union(Set::new(|x: usize| last_inserted(rest, x) is Some));
        let val1 = |x: usize| if last_inserted(rest, x) is Some { last_inserted(rest, x)->0 } else { val(x) };
        assert(d1.pending.contains(c));
        assert forall|x: usize| x != c && done1.contains(x) implies lv(x) == val1(x) by {
            assert(last_inserted(inserts, x) == last_inserted(rest, x));
        }
        assert(lv(c) == b);
        lemma_ledger_give(t, e, d1, done1, val1, c, b, lv);
        assert forall|x: usize| done1.insert(c).contains(x) <==> ld.contains(x) by {
            if x != c {
                assert(last_inserted(inserts, x) == last_inserted(rest, x));
            }
        }
        assert(done1.insert(c) =~= ld);
    }
}

/// Moving `s`'s components for the entity at `coli` into a storage `t`
/// receiving `e`, then giving `inserts` in turn, none refused: each column
/// of `t` then holds, after `t`'s own components, the last inserted
/// component of its type, else the moved one, else nothing; a type is still
/// pending exactly when it was neither moved nor inserted.
pub proof fn lemma_move_then_give(t: StorageModel, e: Entity, s: StorageModel, coli: int, inserts: Seq<(usize, Seq<u8>)>)
    requires
        t.complete(),
        t.cols.len() == t.tys.len(),
        t.sizes.len() == t.tys.len(),
        t.tys.no_duplicates(),
        forall|r: int| 0 <= r < t.sizes.len() ==> t.sizes[r] > 0,
        !t.has_entity(e),
        s.tys.no_duplicates(),
        given_all(moved(s, inserted_entity(t, e), coli, s.tys.len()).1, inserts).1 is None,
    ensures
        ({
            let d2 = given_all(moved(s, inserted_entity(t, e), coli, s.tys.len()).1, inserts).0;
            &&& d2.tys == t.tys
            &&& d2.entities == t.entities.push(e)
            &&& forall|x: usize|
                #[trigger] d2.pending.contains(x) <==> t.tys.contains(x) && !s.tys.contains(x) && last_inserted(
                    inserts,
                    x,
                ) is None
            &&& forall|r: int|
                0 <= r < t.cols.len() ==> #[trigger] d2.cols[r] == if last_inserted(inserts, t.tys[r]) is Some {
                    t.cols[r].push(last_inserted(inserts, t.tys[r])->0.subrange(0, t.sizes[r] as int))
                } else if s.tys.contains(t.tys[r]) {
                    t.cols[r].push(s.cols[s.row(t.tys[r])][coli].subrange(0, t.sizes[r] as int))
                } else {
                    t.cols[r]
                }
        }),
{
    let n = s.tys.len();
    assert(receivable(t));
    lemma_ledger_moved(t, e, s, coli, n);
    assert(s.tys.take(n as int) =~= s.tys);
    let done = Set::new(|x: usize| t.tys.contains(x) && s.tys.take(n as int).contains(x));
    let val = |x: usize| s.cols[s.row(x)][coli];
    let d1 = moved(s, inserted_entity(t, e), coli, n).1;
    lemma_ledger_given(t, e, d1, done, val, inserts);
    let d2 = given_all(d1, inserts).0;
    let ld = done.union(Set::new(|x: usize| last_inserted(inserts, x) is Some));
    let lv = |x: usize| if last_inserted(inserts, x) is Some { last_inserted(inserts, x)->0 } else { val(x) };
    assert forall|r: int| 0 <= r < t.cols.len() implies #[trigger] d2.cols[r] == if last_inserted(inserts, t.tys[r]) is Some {
        t.cols[r].push(last_inserted(inserts, t.tys[r])->0.subrange(0, t.sizes[r] as int))
    } else if s.tys.contains(t.tys[r]) {
        t.cols[r].push(s.cols[s.row(t.tys[r])][coli].subrange(0, t.sizes[r] as int))
    } else {
        t.cols[r]
    } by {
        assert(t.tys.contains(t.tys[r]));
        assert(d2.cols[r] == if ld.contains(t.tys[r]) {
            t.cols[r].push(lv(t.tys[r]).subrange(0, t.sizes[r] as int))
        } else {
            t.cols[r]
        });
    }
    assert forall|x: usize| #[trigger] d2.pending.contains(x) <==> t.tys.contains(x) && !s.tys.contains(x) && last_inserted(inserts, x) is None by {
        assert(d2.pending.contains(x) <==> t.tys.contains(x) && !ld.contains(x));
    }
}

/// Giving in turn components of distinct types that are all still pending
/// refuses none.
proof fn lemma_ledger_gives_all(
    t: StorageModel,
    e: Entity,
    d: StorageModel,
    done: Set<usize>,
    val: spec_fn(usize) -> Seq<u8>,
    inserts: Seq<(usize, Seq<u8>)>,
)
    requires
        receivable(t),
        ledger(t, e, d, done, val),
        insert_ids(inserts).no_duplicates(),
        forall|i: int| 0 <= i < inserts.len() ==> t.tys.contains(#[trigger] inserts[i].0) && !done.contains(inserts[i].0),
    ensures
        given_all(d, inserts).1 is None,
    decreases inserts.len(),
{
    if inserts.len() > 0 {
        let rest = inserts.drop_last();
        let n = inserts.len() - 1;
        assert(insert_ids(rest) == insert_ids(inserts).drop_last());
        assert forall|i: int| 0 <= i < rest.len() implies t.tys.contains(#[trigger] rest[i].0) && !done.contains(rest[i].0) by {
            assert(rest[i] == inserts[i]);
        }
        lemma_ledger_gives_all(t, e, d, done, val, rest);
        lemma_ledger_given(t, e, d, done, val, rest);
        let c = inserts[n].0;
        assert(insert_ids(inserts)[n] == c);
        assert(last_inserted(rest, c) is None) by {
            lemma_last_inserted_some(rest, c);
            if last_inserted(rest, c) is Some {
                let i = choose|i: int| 0 <= i < rest.len() && rest[i].0 == c;
                assert(insert_ids(inserts)[i] == c);
            }
        }
        assert(given_all(d, rest).0.pending.contains(c));
    }
}

/// A last component of type `c` is one of `inserts`.
proof fn lemma_last_inserted_some(inserts: Seq<(usize, Seq<u8>)>, c: usize)
    ensures
        last_inserted(inserts, c) is Some ==> exists|i: int| 0 <= i < inserts.len() && inserts[i].0 == c,
        (exists|i: int| 0 <= i < inserts.len() && inserts[i].0 == c) ==> last_inserted(inserts, c) is Some,
    decreases inserts.len(),
{
    if inserts.len() > 0 {
        let rest = inserts.drop_last();
        lemma_last_inserted_some(rest, c);
        if last_inserted(rest, c) is Some {
            let i = choose|i: int| 0 <= i < rest.len() && rest[i].0 == c;
            assert(inserts[i].0 == c);
        }
        if exists|i: int| 0 <= i < inserts.len() && inserts[i].0 == c {
            let i = choose|i: int| 0 <= i < inserts.len() && inserts[i].0 == c;
            if i < inserts.len() - 1 {
                assert(rest[i].0 == c);
            }
        }
    }
}

/// Moving `s`'s components for the entity at `coli` into a well-shaped
/// storage `t` receiving `e`, then giving components of distinct types that
/// `t` has and `s` lacks, such that every type of `t` is moved or given,
/// refuses none and leaves nothing pending.
pub proof fn lemma_move_then_give_completes(
    t: StorageModel,
    e: Entity,
    s: StorageModel,
    coli: int,
    inserts: Seq<(usize, Seq<u8>)>,
)
    requires
        t.complete(),
        t.cols.len() == t.tys.len(),
        t.sizes.len() == t.tys.len(),
        t.tys.no_duplicates(),
        forall|r: int| 0 <= r < t.sizes.len() ==> t.sizes[r] > 0,
        !t.has_entity(e),
        s.tys.no_duplicates(),
        insert_ids(inserts).no_duplicates(),
        forall|i: int| 0 <= i < inserts.len() ==> t.tys.contains(#[trigger] inserts[i].0) && !s.tys.contains(inserts[i].0),
        forall|x: usize| t.tys.contains(x) ==> s.tys.contains(x) || insert_ids(inserts).contains(x),
    ensures
        given_all(moved(s, inserted_entity(t, e), coli, s.tys.len()).1, inserts).1 is None,
        given_all(moved(s, inserted_entity(t, e), coli, s.tys.len()).1, inserts).0.pending.len() == 0,
{
    let n = s.tys.len();
    assert(receivable(t));
    lemma_ledger_moved(t, e, s, coli, n);
    assert(s.tys.take(n as int) =~= s.tys);
    let done = Set::new(|x: usize| t.tys.contains(x) && s.tys.take(n as int).contains(x));
    let val = |x: usize| s.cols[s.row(x)][coli];
    let d1 = moved(s, inserted_entity(t, e), coli, n).1;
    lemma_ledger_gives_all(t, e, d1, done, val, inserts);
    lemma_move_then_give(t, e, s, coli, inserts);
    let d2 = given_all(d1, inserts).0;
    if d2.pending.len() > 0 {
        let x = d2.pending[0];
        assert(d2.pending.contains(x));
        assert(t.tys.contains(x));
        if insert_ids(inserts).contains(x) {
            let i = choose|i: int| 0 <= i < insert_ids(inserts).len() && insert_ids(inserts)[i] == x;
            lemma_last_inserted_some(inserts, x);
            assert(inserts[i].0 == x);
        }
    }
}

} // verus!
