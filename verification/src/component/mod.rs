pub mod access;
pub mod archetype;
pub mod component_group;
pub mod component_type;
pub mod cursor;
pub mod entity;
pub mod locker;
pub mod query;
pub mod storage;
pub mod transform;

pub use access::{ArchetypeAccess, ArchetypeAccessKeyEntry, ArchetypeAccessKeyManager};
pub use archetype::ArchetypeManager;
pub use component_group::{ComponentGroup, ComponentGroupManager, ComponentGroupModify};
pub use component_type::{ComponentTypeEntry, ComponentTypeManager};
pub use entity::{Entity, EntityIds};
pub use locker::{LockState, Locker};
pub use transform::{
    EntityModify, EntityModifyBuilder, EntityTransform, EntityTransformBuilder, EntityTransformer,
};
pub use storage::{ArchetypeStorage, ArchetypeStorageInsert};
pub use query::{ComponentGroupQuery, ComponentQueryAccessType, ComponentQueryFilterType};

use vstd::prelude::*;

verus! {

pub type ComponentTypeId = crate::Id;

pub type ComponentGroupId = crate::Id;

pub type ComponentHash = crate::HashType;

} // verus!
