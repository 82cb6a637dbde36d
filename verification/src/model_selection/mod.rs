//! Model selection: deterministic shuffling and cross-validation splitters.

pub mod kfold;
pub mod rng;
pub mod split;
