//! MediaFinder: an in-memory index of the media files on a machine, folded for
//! diacritic-insensitive search, with the rules that keep it up to date and
//! the small decisions the media tools around it make.

pub mod audit;
pub mod digest;
pub mod freshness;
pub mod hotkey;
pub mod index;
pub mod ipc;
pub mod lastcheck;
pub mod media;
pub mod order;
pub mod parse;
pub mod text;
pub mod watch;
