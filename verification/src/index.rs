//! The searchable database and everything that builds, updates and queries it.

pub mod fold;
pub mod model;
pub mod persist;
pub mod report;
pub mod rescan;
pub mod search;
pub mod update;
