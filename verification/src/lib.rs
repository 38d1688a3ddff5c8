//! Discovery of module-level dependency graphs: an insertion-ordered
//! import map, a bounded cycle-safe traversal that derives a filtered
//! subgraph, and a deterministic serializer that renders the subgraph
//! as a directed-edge diagram description.

pub mod builder;
pub mod dot;
pub mod escape;
pub mod module_map;
pub mod rankdir;
pub mod scanner;
