//! Dense linear-algebra core: strided matrix views, bidiagonal reduction
//! by two-sided Householder reflections, and Cholesky reconstruction.

pub mod field;
pub mod mat;
pub mod dense;
pub mod bidiag;
pub mod householder;
pub mod stack;
pub mod cholesky;
