//! Lossless, bidirectional transform between a tree-shaped value (objects,
//! arrays, scalars) and a flat map from encoded path strings to scalar values.
//!
//! `flattening::flatten` walks a tree depth-first and emits one `(path, value)`
//! pair per leaf, encoding the route to the leaf in the path string itself
//! (`a.b`, `x[0][1].w`). `unflattening::unflatten` parses each path back into
//! segments and rebuilds the tree. Both directions carry full functional
//! specifications, and the path grammar is a verified parser of its own.

pub mod errors;
pub mod flattening;
pub mod paths;
pub mod unflattening;
pub mod value;
