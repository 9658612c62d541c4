//! Intermediate representation of a rank-1 constraint system over the BN254
//! scalar field: linear and quadratic combinations with their canonical
//! forms, the hint solvers, and the interpreter that runs a program on its
//! inputs to build a witness; with the types that function signatures carry.
pub mod decimal;
pub mod expression;
pub mod field;
pub mod interpreter;
pub mod solvers;
pub mod types;
