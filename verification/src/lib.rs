//! A synthetic time-series generator: it learns an order-k Markov model from
//! a history of typed rows and emits new row streams that preserve the
//! history's local statistical structure.

pub mod codec;
pub mod errors;
pub mod float_bits;
pub mod model;
pub mod numtext;
pub mod orchestrate;
pub mod rng;
pub mod row;
pub mod schedule;
