//! Dominant-color extraction: k-means clustering of an RGBA pixel buffer into a
//! small palette of representative colors and their coverage.
//!
//! - `color`: packed colors and their channels.
//! - `buffer`: the read-only pixel view, rows possibly padded.
//! - `metric`: the weighted color distance and the nearest centroid.
//! - `seed`: initial centroids from drawn pixels.
//! - `cluster`: Lloyd's iteration and what holds of its result.
//! - `palette`: the entry points and the palette they return.
pub mod buffer;
pub mod cluster;
pub mod color;
pub mod error;
pub mod metric;
pub mod palette;
pub mod seed;
