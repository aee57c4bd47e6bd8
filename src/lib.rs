//! Cleaning of exported document trees: every file and folder name carries a
//! trailing identifier that this library strips, while keeping names unique
//! and rewriting every textual reference to the old names.

pub mod bytes;
pub mod encoding;
pub mod entities;
pub mod file_type;
pub mod locate;
pub mod names;
pub mod objects;
pub mod paths;
pub mod rename;
pub mod rewrite;
pub mod splice;
pub mod validate;
