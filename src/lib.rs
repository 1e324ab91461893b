//! Rendering of package-level differences between two snapshots of an
//! installed software set.

pub mod diff;
pub mod package;
pub mod parser;
pub mod versioning;
