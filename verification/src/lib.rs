//! Post-processing for object-detection networks: decoding raw output
//! tensors into labelled bounding boxes and removing duplicates by
//! non-maximum suppression.
//!
//! All numeric work is done in decimal fixed point (see [`fp`]), so every
//! step of the pipeline carries an exact arithmetic contract.

pub mod anchor;
pub mod bbox;
pub mod engine;
pub mod error;
pub mod fp;
pub mod heatmap;
pub mod nms;
pub mod numeric;

pub use fp::FP_ONE;
