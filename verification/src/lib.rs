pub mod component;
pub mod data;
pub mod debug;
pub mod error;
pub mod event;
pub mod resource;
pub mod runtime;

pub use component::{ComponentGroup, Entity};
pub use data::{DVec, SparseSet, TVal};
pub use error::RuntimeError;

use vstd::prelude::*;

verus! {

/// Identifiers of component types, component groups and entities.
pub type Id = usize;

/// Hashes that name component, event and resource types.
pub type HashType = u64;

/// The result of a library operation.
pub type Result<T> = core::result::Result<T, RuntimeError>;

} // verus!
