use crate::component::entity::Entity;
use vstd::prelude::*;

verus! {

/// What the library's operations report when they refuse a request.
#[derive(Debug, Clone, PartialEq, Eq)]
pub enum RuntimeError {
    BadEntity { e: Entity },
    BadComponentType { ctyid: usize },
    BadComponentTypeName { name: String },
    BadComponentTypeHash { hash: u64 },
    DuplicateComponentTypeHash { hash: u64 },
    BadComponentGroup { gid: usize },
    ArchetypeStorageInsertIncomplete { missing: Vec<usize> },
    BadArchetypeManagerTransformEntityInsertComponent { target: Entity, insert: usize },
    BadArchetypeManagerTransformEntityRemoveComponent { target: Entity, remove: usize },
    BadArchetypeManagerAccessIndex { idx: usize, max: usize },
    BadArchetypeAccessKey { akid: usize },
    ArchetypeStorageLocked,
    PluginNoName,
    PluginNoSystems,
    PluginDependsOnSelf { plugin: String },
    PluginDependenciesNoMet { plugin: String, unmet: Vec<String> },
    SystemNoPluginName { system: String },
    DuplicateEventTypeHash { hash: u64 },
    BadEventTypeHash { hash: u64 },
    BadEventStorageGetIndex { idx: usize },
    DuplicateResourceTypeHash { hash: u64 },
    BadResourceTypeHash { hash: u64 },
}

} // verus!
