//! Face-count validation core: detection post-processing and serving pipeline.
//!
//! The crate turns a detector's raw output into a clean set of face bounding
//! boxes: decoding and confidence filtering, adaptive density-based clustering
//! of overlapping boxes, a session cache with expiry, a size-keyed buffer pool,
//! channel-planar tensor preparation, and a retry/timeout supervisor for one
//! validation request.
//!
//! All coordinate and confidence arithmetic is exact: coordinates are pixels,
//! confidences and normalized model outputs are fixed-point values scaled by
//! `CONF_SCALE`, and ratio comparisons (intersection-over-union, epsilon
//! distances) are carried out on cross-multiplied integers.

pub mod cache;
pub mod clustering;
pub mod decode;
pub mod pipeline;
pub mod pool;
pub mod preprocess;
pub mod response;
pub mod supervisor;
pub mod dbscan;
pub mod types;
