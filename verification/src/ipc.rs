//! What the interface asks for and how it is answered.

pub mod commands;
pub mod elevate;
pub mod media_stream;
pub mod protocol;
