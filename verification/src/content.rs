//! The filesystem data model and the three-way diff engine.

pub mod diff;
pub mod filesystem;
pub mod item;
