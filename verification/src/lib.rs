//! Contract checking for AIL programs: static scope checks over contract
//! expressions, the Čech nerve of contract sections, the solver encoding of
//! contracts, verification planning and its runs on the solver, obstruction
//! detection, breaking-change detection, the decisions of semantic coverage
//! and of the graph store, and the invalidation rules of cached context
//! packets.

pub mod expr;
pub mod scope;
pub mod model;
pub mod text;
pub mod checks;
pub mod summary;
pub mod sheaf;
pub mod encode;
pub mod sorts;
pub mod plan;
pub mod verified;
pub mod obstruction;
pub mod coverage;
pub mod store;
pub mod solve;
pub mod formula;
pub mod render;
pub mod invalidation;
