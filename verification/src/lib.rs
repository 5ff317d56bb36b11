//! A static 2D spatial index (flat KD-tree) with a feature-oriented query
//! layer: bounding-box and radius queries, deduplicated viewport queries,
//! and per-feature heatmap centroids.

pub mod geodata;
pub mod kdbush;
