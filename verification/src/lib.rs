//! Dependency graphs of TypeScript source trees.
//!
//! Starting from one entry file, the library finds every file that is
//! reachable through relative `import` statements and records, for each
//! file, the files it imports. The library never touches the disk: it names
//! what it needs to know next, and its caller answers.

pub mod path_text;
pub mod canonical_path;
pub mod path_order;
pub mod imports;
pub mod dependencies;
pub mod error;
pub mod parsing;
pub mod world;
pub mod graph;
pub mod overview;
