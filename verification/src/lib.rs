//! The exact core of a synthesizer for impact and scraping sounds.
//!
//! A sound is made from physical parameters by four routines: a causal
//! convolution, a streaming median filter, a lookup into piecewise-linear
//! curves, and the tick that walks a cursor along the surface curves of a
//! scrape. What these routines decide by counting, ordering and indexing is
//! here, with proofs. Samples are `i64`. A caller that computes in floating
//! point hands in, for the routines that only order samples, integer keys
//! that order as its floats do, and keeps the arithmetic on the floats to
//! itself.
//!
//! Buffers come from a foreign caller as `safer_ffi::Vec<i64>`; the module
//! [`buffer`] says what is taken on trust about them.

pub mod buffer;
pub mod convolution;
pub mod error;
pub mod interpolation;
pub mod median;
pub mod order;
pub mod scrape;
pub mod select;

pub use crate::convolution::{convolve, kernel_window};
pub use crate::error::KernelError;
pub use crate::interpolation::{interpolate1d, Lookup};
pub use crate::median::{Median, MedianFilter, WINDOW};
pub use crate::scrape::{get_scrape, ScrapePlan, SCRAPE_LINEAR_SPACE_LEN};
