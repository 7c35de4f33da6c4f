//! Exact generic arithmetic for resistor-network computations: polynomials
//! over a ring of coefficients, dense matrices with a fraction-free
//! determinant, and packed symmetric edge storage for complete graphs.

pub mod arithmetic;
pub mod decimal;
pub mod errors;
pub mod impedance_network;
pub mod matrix;
pub mod polynomial;
