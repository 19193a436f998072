//! An arithmetic-expression interpreter: expression trees over a scalar leaf
//! type, an environment binding variable names to expressions, and the
//! resolution of a tree under an environment into a variable-free tree whose
//! every subtraction has a first operand.

pub mod expression;
pub mod environment;
pub mod resolution;
