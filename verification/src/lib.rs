//! Core logic of a garden-planning backend: plant-placement heatmaps and
//! plant relation lookups.
//!
//! The backing store (map geometry, placement scoring, relation edges) is an
//! external collaborator: callers fetch a map's bounding box, the scored
//! points inside it, and the stored relation edges, and hand them to the
//! functions here as plain values. Everything this crate computes from those
//! values is verified.

pub mod heatmap;
pub mod relations;
