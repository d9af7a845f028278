//! Reading the digits of a mechanical meter from grayscale pictures.
//!
//! The crate holds what can be said of such a reader in whole numbers:
//! pictures and their preparation, summed-area tables, the layout and the
//! statistics of normalised cross-correlation, the scan that turns
//! per-column match scores into digit positions, the assembly of those
//! digits into a number, and a filter for implausible readings. The
//! transform to the frequency domain and the scores themselves are floating
//! point and are left to the caller.

pub mod raster;
pub mod image_op;
pub mod transform;
pub mod sobel;
pub mod integral;
pub mod correlation;
pub mod covariance;
pub mod locator;
pub mod assembler;
pub mod plausibility;
pub mod sinks;
pub mod sources;
