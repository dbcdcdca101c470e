//! A small fixed-dimension linear-algebra library: vectors and matrices over
//! an abstract scalar, with elementwise arithmetic, products, transpose,
//! trace, Gauss-Jordan row reduction, rank, cofactor determinant (up to 4x4)
//! and Gauss-Jordan inversion.  Every operation carries a contract that pins
//! its result down to a mathematical model of the scalar's operations.

pub mod scalar;
pub mod vector;
pub mod matrix;
pub mod echelon;

pub use crate::scalar::Scalar;
pub use crate::vector::Vector;
pub use crate::matrix::Matrix;
pub use crate::matrix::MatrixError;
