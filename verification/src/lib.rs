//! Builds a knowledge graph over a legal corpus: bounded text chunks with
//! exact byte-offset provenance, typed nodes for citable units, and a
//! deduplicated, ordered edge set for containment and citation links.
//!
//! The pipeline runs in two passes. Pass one cleans the raw table rows into
//! addressable records and constructs one node per citable unit or text
//! chunk, together with a lookup table from structural key to node
//! identities. Pass two resolves structural containment and textual
//! citations against that table into a deduplicated, ordered edge set. Both
//! passes are deterministic and total: defective records are dropped,
//! unresolvable references are skipped, and nothing fails.

pub mod chunker;
pub mod edges;
pub mod etl;
pub mod html;
pub mod nodes;
pub mod pipeline;
pub mod rows;
pub mod text;
