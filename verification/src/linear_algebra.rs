//! The linear-algebra core: the `Matrix` type, its mathematical model, the
//! error kinds its operations report, and the helpers they build on.

pub mod error;
pub mod fbits;
pub mod laws;
pub mod matrix;
pub mod model;
pub mod rng;

pub use error::MatrixError;
pub use matrix::Matrix;
