//! Parallel extraction engine for a zip-based scene-layer container.
//!
//! The library holds the decisions of the extractor: dividing the entry
//! indices among workers, deriving the destination directory name from the
//! source path, neutralizing untrusted stored names, choosing between a
//! verbatim copy and a gzip decode for each entry, and aggregating the
//! workers' outcomes. The surrounding process does the filesystem work and
//! hands plain values in and out.

pub mod errors;
pub mod paths;
pub mod split_indices;
pub mod unpack;
