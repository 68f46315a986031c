use super::component_type::ComponentTypeManager;
use super::{ComponentHash, ComponentTypeId, Entity};
use crate::data::TVal;
use crate::error::RuntimeError;
use crate::Result;
use vstd::prelude::*;

verus! {

/// Entity transforms waiting to be applied.
pub struct EntityTransformer {
    transforms: Vec<EntityTransformBuilder>,
}

impl View for EntityTransformer {
    type V = Seq<EntityTransformBuilder>;

    closed spec fn view(&self) -> Seq<EntityTransformBuilder> {
        self.transforms@
    }
}

impl EntityTransformer {
    pub fn create() -> (t: Self)
        ensures
            t@ == Seq::<EntityTransformBuilder>::empty(),
    {
        EntityTransformer { transforms: Vec::new() }
    }

    pub fn insert(&mut self, transform: EntityTransformBuilder)
        ensures
            final(self)@ == old(self)@.push(transform),
    {
        self.transforms.push(transform);
    }

    /// Takes the first waiting transform; the last one moves into its place.
    pub fn get(&mut self) -> (r: Option<EntityTransformBuilder>)
        ensures
            old(self)@.len() == 0 ==> r is None && final(self)@ == old(self)@,
            old(self)@.len() > 0 ==> r == Some(old(self)@[0]) && final(self)@ == old(self)@.update(
                0,
                old(self)@.last(),
            ).drop_last(),
    {
        if self.transforms.is_empty() {
            None
        } else {
            Some(self.transforms.swap_remove(0))
        }
    }
}

/// What a transform does to its entity, before a created entity has its id.
#[derive(Debug, Clone, Copy, PartialEq, Eq, Structural)]
pub enum EntityModifyBuilder {
    Create(Option<Entity>),
    Modify(Entity),
    Destroy(Entity),
}

/// What a transform does to its entity.
#[derive(Debug, Clone, Copy, PartialEq, Eq, Structural)]
pub enum EntityModify {
    Create(Entity),
    Modify(Entity),
    Destroy(Entity),
}

/// A transform of one entity in the making: components named by hash.
pub struct EntityTransformBuilder {
    modify: EntityModifyBuilder,
    inserts: Vec<(ComponentHash, TVal)>,
    removes: Vec<ComponentHash>,
}

/// The modification with the created entity's id filled in.
pub open spec fn built_modify(m: EntityModifyBuilder) -> EntityModify {
    match m {
        EntityModifyBuilder::Create(e) => EntityModify::Create(e->0),
        EntityModifyBuilder::Modify(e) => EntityModify::Modify(e),
        EntityModifyBuilder::Destroy(e) => EntityModify::Destroy(e),
    }
}

impl EntityTransformBuilder {
    pub closed spec fn modify(&self) -> EntityModifyBuilder {
        self.modify
    }

    pub closed spec fn inserts(&self) -> Seq<(ComponentHash, TVal)> {
        self.inserts@
    }

    pub closed spec fn removes(&self) -> Seq<ComponentHash> {
        self.removes@
    }

    pub fn create(modify: EntityModifyBuilder) -> (b: Self)
        ensures
            b.modify() == modify,
            b.inserts() == Seq::<(ComponentHash, TVal)>::empty(),
            b.removes() == Seq::<ComponentHash>::empty(),
    {
        EntityTransformBuilder { modify, inserts: Vec::new(), removes: Vec::new() }
    }

    pub fn insert(&mut self, ch: ComponentHash, cval: TVal)
        ensures
            final(self).modify() == old(self).modify(),
            final(self).inserts() == old(self).inserts().push((ch, cval)),
            final(self).removes() == old(self).removes(),
    {
        self.inserts.push((ch, cval));
    }

    pub fn remove(&mut self, ch: ComponentHash)
        ensures
            final(self).modify() == old(self).modify(),
            final(self).inserts() == old(self).inserts(),
            final(self).removes() == old(self).removes().push(ch),
    {
        self.removes.push(ch);
    }

    pub fn get_mut_modify(&mut self) -> (r: &mut EntityModifyBuilder)
        ensures
            *r == old(self).modify(),
            final(self).modify() == *final(r),
            final(self).inserts() == old(self).inserts(),
            final(self).removes() == old(self).removes(),
    {
        &mut self.modify
    }

    /// Resolves the component hashes to ids. Fails on the first hash that is
    /// not registered, inserts before removes.
    pub fn build(self, ctymgr: &ComponentTypeManager) -> (r: Result<EntityTransform>)
        requires
            ctymgr.wf(),
            self.modify() == EntityModifyBuilder::Create(None) ==> !((forall|i: int|
                0 <= i < self.inserts().len() ==> ctymgr.knows(#[trigger] self.inserts()[i].0)) && (forall|i: int|
                0 <= i < self.removes().len() ==> ctymgr.knows(#[trigger] self.removes()[i]))),
        ensures
            r is Ok <==> (forall|i: int|
                0 <= i < self.inserts().len() ==> ctymgr.knows(#[trigger] self.inserts()[i].0))
                && (forall|i: int|
                0 <= i < self.removes().len() ==> ctymgr.knows(#[trigger] self.removes()[i])),
            r matches Ok(t) ==> {
                &&& t.modify() == built_modify(self.modify())
                &&& t.inserts().len() == self.inserts().len()
                &&& forall|i: int|
                    0 <= i < t.inserts().len() ==> #[trigger] t.inserts()[i] == (
                        ctymgr.id_of(self.inserts()[i].0),
                        self.inserts()[i].1,
                    )
                &&& t.removes() == self.removes().map_values(|h: u64| ctymgr.id_of(h))
            },
            r matches Err(e) ==> {
                ||| exists|i: int|
                    0 <= i < self.inserts().len() && !ctymgr.knows(self.inserts()[i].0) && (forall|
                        j: int,
                    | 0 <= j < i ==> ctymgr.knows(#[trigger] self.inserts()[j].0)) && e
                        == RuntimeError::BadComponentTypeHash { hash: self.inserts()[i].0 }
                ||| (forall|j: int|
                    0 <= j < self.inserts().len() ==> ctymgr.knows(#[trigger] self.inserts()[j].0))
                    && exists|i: int|
                    0 <= i < self.removes().len() && !ctymgr.knows(self.removes()[i]) && (forall|
                        j: int,
                    | 0 <= j < i ==> ctymgr.knows(#[trigger] self.removes()[j])) && e
                        == RuntimeError::BadComponentTypeHash { hash: self.removes()[i] }
            },
    {
        let ghost orig_inserts = self.inserts@;
        let ghost orig_removes = self.removes@;
        let EntityTransformBuilder { modify, inserts: src_inserts, removes: src_removes } = self;
        let mut src_inserts = src_inserts;
        let n = src_inserts.len();
        let mut inserts: Vec<(ComponentTypeId, TVal)> = Vec::with_capacity(n);
        let mut i: usize = 0;
        while i < n
            invariant
                orig_inserts == self.inserts(),
                orig_removes == self.removes(),
                n == orig_inserts.len(),
                ctymgr.wf(),
                i <= n,
                src_inserts@ == orig_inserts.subrange(i as int, n as int),
                inserts@.len() == i,
                forall|j: int| 0 <= j < i ==> ctymgr.knows(#[trigger] orig_inserts[j].0),
                forall|j: int|
                    0 <= j < i ==> #[trigger] inserts@[j] == (
                        ctymgr.id_of(orig_inserts[j].0),
                        orig_inserts[j].1,
                    ),
            decreases n - i,
        {
            let (hash, val) = src_inserts.remove(0);
            assert((hash, val) == orig_inserts[i as int]);
            let id = match ctymgr.get_id_with_hash(hash) {
                Ok(id) => id,
                Err(e) => {
                    assert(orig_inserts == self.inserts());
                    assert(!ctymgr.knows(self.inserts()[i as int].0));
                    assert(forall|j: int| 0 <= j < i ==> ctymgr.knows(#[trigger] self.inserts()[j].0));
                    return Err(e);
                },
            };
            inserts.push((id, val));
            i = i + 1;
            assert(src_inserts@ =~= orig_inserts.subrange(i as int, n as int));
        }
        let mut removes: Vec<ComponentTypeId> = Vec::with_capacity(src_removes.len());
        let mut k: usize = 0;
        while k < src_removes.len()
            invariant
                orig_inserts == self.inserts(),
                orig_removes == self.removes(),
                ctymgr.wf(),
                src_removes@ == orig_removes,
                forall|j: int| 0 <= j < orig_inserts.len() ==> ctymgr.knows(#[trigger] orig_inserts[j].0),
                k <= src_removes@.len(),
                removes@ == src_removes@.subrange(0, k as int).map_values(
                    |h: u64| ctymgr.id_of(h),
                ),
                forall|j: int| 0 <= j < k ==> ctymgr.knows(#[trigger] src_removes@[j]),
            decreases src_removes@.len() - k,
        {
            let id = match ctymgr.get_id_with_hash(src_removes[k]) {
                Ok(id) => id,
                Err(e) => {
                    assert(orig_removes == self.removes());
                    assert(orig_inserts == self.inserts());
                    assert(!ctymgr.knows(self.removes()[k as int]));
                    assert(forall|j: int| 0 <= j < k ==> ctymgr.knows(#[trigger] self.removes()[j]));
                    assert(forall|j: int| 0 <= j < self.inserts().len() ==> ctymgr.knows(#[trigger] self.inserts()[j].0));
                    return Err(e);
                },
            };
            removes.push(id);
            k = k + 1;
            assert(removes@ =~= src_removes@.subrange(0, k as int).map_values(
                |h: u64| ctymgr.id_of(h),
            ));
        }
        assert(src_removes@.subrange(0, k as int) =~= src_removes@);
        let modify = match modify {
            EntityModifyBuilder::Create(Some(e)) => EntityModify::Create(e),
            EntityModifyBuilder::Modify(e) => EntityModify::Modify(e),
            EntityModifyBuilder::Destroy(e) => EntityModify::Destroy(e),
            EntityModifyBuilder::Create(None) => {
                proof {
                    assert(false);
                }
                EntityModify::Destroy(Entity::from_id(0))
            },
        };
        Ok(EntityTransform { modify, inserts, removes })
    }
}

/// A transform of one entity: components named by type id.
pub struct EntityTransform {
    modify: EntityModify,
    inserts: Vec<(ComponentTypeId, TVal)>,
    removes: Vec<ComponentTypeId>,
}

impl EntityTransform {
    pub closed spec fn modify(&self) -> EntityModify {
        self.modify
    }

    pub closed spec fn inserts(&self) -> Seq<(ComponentTypeId, TVal)> {
        self.inserts@
    }

    pub closed spec fn removes(&self) -> Seq<ComponentTypeId> {
        self.removes@
    }

    pub fn get_modify(&self) -> (r: EntityModify)
        ensures
            r == self.modify(),
    {
        self.modify
    }

    pub fn get_inserts(&self) -> (r: &Vec<(ComponentTypeId, TVal)>)
        ensures
            r@ == self.inserts(),
    {
        &self.inserts
    }

    pub fn get_removes(&self) -> (r: &Vec<ComponentTypeId>)
        ensures
            r@ == self.removes(),
    {
        &self.removes
    }
}

} // verus!
