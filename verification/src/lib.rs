//! Adaptive arithmetic coding: an order-0 adaptive probability model, a
//! finite-precision renormalizing range coder, and an MSB-first bit stream
//! with a byte-oriented persisted layout.

pub mod code;
pub mod coder;
pub mod model;

pub use code::Code;
pub use model::Probabilities;
pub use model::{CYCLE, PRECISION};
