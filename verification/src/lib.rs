//! Data-preprocessing building blocks with machine-checked contracts.

pub mod text;
pub mod error;
pub mod matrix;
pub mod names;
pub mod encoder;
pub mod model_selection;
pub mod categorical_kind;
pub mod compose;
pub mod pipeline;
pub mod polynomial;

pub use categorical_kind::CategoricalTransformerKind;
pub use compose::column_transformer::{ColumnSpec, ColumnTransformer, OutputBlock, Remainder};
pub use encoder::frequency::{FrequencyEncoder, UnknownFrequency};
pub use encoder::label::LabelEncoder;
pub use encoder::onehot::{DropStrategy, HandleUnknown, OneHotEncoder, OneHotOutput};
pub use encoder::ordinal::{OrdinalCategories, OrdinalEncoder, OrdinalHandleUnknown};
pub use error::{DatarustError, Result};
pub use matrix::{CodeMatrix, SparseCodeMatrix, StrMatrix};

pub use model_selection::kfold::{fold_sizes, KFold, StratifiedKFold};
pub use model_selection::rng::Rng;
pub use pipeline::{Pipeline, SupervisedPipeline};
pub use polynomial::PolynomialFeatures;
