//! Utilities for grouped sparse feature networks: grouping of
//! (source, target, weight) triples, filtering, remapping through an
//! ordered vocabulary, and a flattened, offset-indexed storage format
//! with random-access per-group slices.

pub mod traits;

pub mod types;

pub mod utils;
