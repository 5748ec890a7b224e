//! Static discovery of the module-dependency graph of a JavaScript/TypeScript
//! source tree.
//!
//! Starting from an entry file, the traverser follows `import` declarations,
//! classifies each referenced specifier as local (resolvable to a file inside
//! the project) or external (a package reference, never traversed), and
//! recursively repeats the process on every newly discovered local file.
//! The run produces a dependency graph (file -> recorded specifiers) and an
//! aggregate reference count per distinct specifier string.
//!
//! Parsing source text into import lists and all filesystem access live
//! outside this crate; the core here works over plain values: specifier
//! strings, a snapshot of which paths exist, and tables of parsed imports.

pub mod cli;
pub mod graph;
pub mod paths;
pub mod resolve;
pub mod stats;
pub mod traverse;
