//! Structural schema inference for newline-delimited JSON.
//!
//! A schema node records, for one position of the document tree, every kind of
//! value seen there. Nodes form a join semilattice under `Schema::merge`, so the
//! per-record schemas of a corpus can be folded in any grouping and order.
//!
//! - `mask`: the tags, as bits.
//! - `model`: the mathematical model of a node and the join.
//! - `schema`: nodes, inference from a parsed value, merge.
//! - `entries`: the lists that hold properties and strings.
//! - `laws`: the algebra of merge, proved.
//! - `value`: a parsed record, and the parser.
//! - `process`: line-aligned chunks and the per-worker fold.
//! - `json_schema`: the JSON-Schema document for a node.
//! - `path`: a flat schema over dotted property paths.

pub mod mask;
pub mod model;
pub mod schema;
pub mod entries;
pub mod laws;
pub mod value;
pub mod process;
pub mod json_schema;
pub mod path;
