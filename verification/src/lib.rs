//! Lane-parallel array search primitives: linear search ("first index whose
//! value equals a needle") and argmin ("index of the first occurrence of the
//! minimum"), each as a scalar baseline and as a chunked, lane-parallel
//! variant whose result is proved identical to the baseline.

pub mod argmin;
pub mod find;

pub use find::simd_find;
pub use find::simple_find;
