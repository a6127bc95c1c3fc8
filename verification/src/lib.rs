//! Aggregate color histogram over 8-bit RGB pixels.
//!
//! Pixels are quantized into coarse color buckets by a reduction factor,
//! counted in a dense histogram, ranked by frequency with a deterministic
//! tie-break, and rendered as an HTML report.

pub mod histogram;
pub mod quantize;
pub mod report;
