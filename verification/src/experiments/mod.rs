pub mod transforms;
pub mod base;
pub mod restrictions;
pub mod laws;
