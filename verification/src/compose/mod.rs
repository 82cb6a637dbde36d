//! Applying different transformers to different columns of a table.

pub mod column_transformer;
