//! Textual linear equations, assembled into a linear system and solved by
//! Gaussian elimination with partial pivoting, over exact rational arithmetic.
//! Every elementary row operation performed by the solver is recorded as a
//! replayable transformation that can be rendered as text.

pub mod equation;
pub mod scan;
pub mod matrix;
pub mod rat;
pub mod render;
