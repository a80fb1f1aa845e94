//! Numeric and geometric post-processing for a face-detection pipeline.
//!
//! The neural networks themselves, image decoding and the file system are
//! outside collaborators; this library covers the arithmetic between them:
//! decoding raw detector scores into a non-overlapping set of boxes
//! (confidence filter and non-maximum suppression), reprojecting a box from
//! the detector's letterboxed frame onto original pixel coordinates, and
//! normalizing embedding vectors and ranking a gallery by distance.
//!
//! All quantities are fixed-point integers: normalized coordinates and
//! confidences carry the denominator [`geometry::COORD_SCALE`], embedding
//! components the denominator [`embedding::EMBEDDING_SCALE`]. That keeps
//! every formula exact, so every contract here can state the result of a
//! computation to the last unit.

pub mod config;
pub mod embedding;
pub mod gallery;
pub mod geometry;
pub mod mapper;
pub mod post_processor;
