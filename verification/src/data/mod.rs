pub mod dvec;
pub mod sparse;
pub mod tval;

pub use dvec::DVec;
pub use sparse::SparseSet;
pub use tval::TVal;
