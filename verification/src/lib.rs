//! Finds third-party dependency coordinates declared in a Scala build
//! project's source files, determines which have newer releases, and
//! rewrites the exact textual locations of outdated version literals
//! in place, leaving all surrounding text untouched.

pub mod assoc;
pub mod dependency_resolver;
pub mod entry_map;
pub mod model;
pub mod parser;
pub mod span;
pub mod tree;
pub mod update_options;
pub mod version;
