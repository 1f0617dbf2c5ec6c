//! An optimizer for a small three-address intermediate representation.

pub mod ir;
pub mod laws;
pub mod passes;
pub mod render;
pub mod semantics;
pub mod store;
pub mod text;
