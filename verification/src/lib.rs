//! A mean-shift clustering engine over fixed-point coordinates: every
//! coordinate is an `i64` holding a scaled real value, which lets every
//! step of the pipeline carry an exact contract.

pub mod distance_measure;
pub mod error;
pub mod index;
pub mod interface;
pub mod parallel;
pub mod utils;

pub use distance_measure::{DistanceMeasure, Euclidean, Manhattan, DTW};
pub use error::MeanShiftError;
pub use interface::{cluster_named, Parameters};
pub use parallel::MeanShift;
