//! Directory snapshots and their comparison, together with the parsing of
//! the command line that drives them.

pub mod text;
pub mod components;
pub mod dir;
pub mod app;
