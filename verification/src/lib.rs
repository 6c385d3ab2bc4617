//! Structural remapping of nested key-value documents.
//!
//! A rule document (a JSON-like value tree) is compiled once into an
//! edge-tagged trie.  A source document (a TOML-like value tree) is then
//! walked in lock-step with the trie: dotted rule keys fuse several source
//! levels into one composite output key, and a pseudo-index wildcard lets a
//! single rule branch govern every element of a source array.  The matched
//! leaves are finally assembled into one output value tree, rejecting any
//! ambiguous merge.

#![verifier::loop_isolation(false)]

pub mod assoc;
pub mod collect;
pub mod context;
pub mod laws;
pub mod path;
pub mod rule;
pub mod text;
pub mod transform;
pub mod value;

pub use collect::collect_rules;
pub use context::Context;
pub use path::Path;
pub use rule::Edge;
pub use rule::Key;
pub use rule::Node;
pub use rule::Rules;
pub use transform::Conflict;
pub use transform::map_by_rules;
pub use transform::toml_to_json_value;
pub use transform::transform_by_rules;
pub use value::Json;
pub use value::Number;
pub use value::Toml;
