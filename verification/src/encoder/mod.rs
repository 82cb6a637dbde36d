//! Categorical encoders.

pub mod frequency;
pub mod label;
pub mod onehot;
pub mod ordinal;
