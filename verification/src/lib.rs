//! Merging of PDF documents into a single well-formed document.
//!
//! The core of the crate is a verified merge engine: it consumes a list of
//! parsed documents, renumbers every object into one non-colliding id space,
//! keeps exactly one catalog and one page collection, retargets every page's
//! parent pointer, and compacts the id space of the result.  Parsing raw
//! bytes and serializing the merged graph are delegated to the `lopdf` crate
//! behind a small trusted boundary.

pub mod classify;
pub mod codec;
pub mod compact;
pub mod errors;
pub mod graph;
pub mod merge;
pub mod model;
pub mod properties;
pub mod readiness;
pub mod renumber;
pub mod staging;
pub mod tree;
