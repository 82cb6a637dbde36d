//! One type for any of the categorical encoders, so that a categorical
//! block can hold whichever encoder it was given.

use vstd::prelude::*;
use crate::encoder::frequency::FrequencyEncoder;
use crate::encoder::onehot::{input_name, names_prefix, OneHotEncoder};
use crate::encoder::ordinal::{transform_outcome, OrdinalEncoder};
use crate::error::Result;
use crate::matrix::{CodeMatrix, StrMatrix};
use crate::names::default_name;
use crate::text::texts;

verus! {

/// A one-hot, ordinal or frequency encoder.
pub enum CategoricalTransformerKind {
    /// A one-hot encoder.
    OneHotEncoder(OneHotEncoder),
    /// An ordinal encoder.
    OrdinalEncoder(OrdinalEncoder),
    /// A frequency encoder.
    FrequencyEncoder(FrequencyEncoder),
}

/// The input names as texts.
pub open spec fn input_texts(input_features: Option<&[String]>) -> Option<Seq<Seq<char>>> {
    match input_features {
        Some(fs) => Some(texts(fs@)),
        None => None,
    }
}

impl CategoricalTransformerKind {
    /// Fits the held encoder on `x`; the kind of encoder stays the same.
    pub fn fit(&mut self, x: &StrMatrix) -> (r: Result<()>)
        ensures
            match (*old(self), *final(self)) {
                (
                    CategoricalTransformerKind::OneHotEncoder(a),
                    CategoricalTransformerKind::OneHotEncoder(b),
                ) => r is Ok && OneHotEncoder::fitted_on(a, b, x@),
                (
                    CategoricalTransformerKind::OrdinalEncoder(a),
                    CategoricalTransformerKind::OrdinalEncoder(b),
                ) => OrdinalEncoder::fit_outcome(a, b, x@, r),
                (
                    CategoricalTransformerKind::FrequencyEncoder(a),
                    CategoricalTransformerKind::FrequencyEncoder(b),
                ) => r is Ok && FrequencyEncoder::fitted_on(a, b, x@),
                _ => false,
            },
    {
        match self {
            CategoricalTransformerKind::OneHotEncoder(t) => t.fit(x),
            CategoricalTransformerKind::OrdinalEncoder(t) => t.fit(x),
            CategoricalTransformerKind::FrequencyEncoder(t) => t.fit(x),
        }
    }

    /// Encodes `x` with the held encoder: one-hot codes, ordinal codes, or
    /// category counts.
    pub fn transform(&self, x: &StrMatrix) -> (r: Result<CodeMatrix>)
        ensures
            match *self {
                CategoricalTransformerKind::OneHotEncoder(t) => OneHotEncoder::transform_outcome(t, x@, r),
                CategoricalTransformerKind::OrdinalEncoder(t) => transform_outcome(
                    t.spec_fitted(),
                    t.spec_handle_unknown(),
                    t.spec_categories(),
                    x@,
                    r,
                ),
                CategoricalTransformerKind::FrequencyEncoder(t) => FrequencyEncoder::transform_outcome(
                    t,
                    x@,
                    r,
                ),
            },
    {
        match self {
            CategoricalTransformerKind::OneHotEncoder(t) => t.transform(x),
            CategoricalTransformerKind::OrdinalEncoder(t) => t.transform(x),
            CategoricalTransformerKind::FrequencyEncoder(t) => t.transform(x),
        }
    }

    /// Whether the held encoder has been fitted.
    pub fn is_fitted(&self) -> (r: bool)
        ensures
            r == match *self {
                CategoricalTransformerKind::OneHotEncoder(t) => t.spec_fitted(),
                CategoricalTransformerKind::OrdinalEncoder(t) => t.spec_fitted(),
                CategoricalTransformerKind::FrequencyEncoder(t) => t.spec_fitted(),
            },
    {
        match self {
            CategoricalTransformerKind::OneHotEncoder(t) => t.is_fitted(),
            CategoricalTransformerKind::OrdinalEncoder(t) => t.is_fitted(),
            CategoricalTransformerKind::FrequencyEncoder(t) => t.is_fitted(),
        }
    }

    /// The output feature names of the held encoder.
    pub fn feature_names_out(&self, input_features: Option<&[String]>) -> (r: Vec<String>)
        ensures
            texts(r@) == match *self {
                CategoricalTransformerKind::OneHotEncoder(t) => names_prefix(
                    t.spec_categories(),
                    t.spec_drop(),
                    input_texts(input_features),
                    t.spec_categories().len() as int,
                ),
                CategoricalTransformerKind::OrdinalEncoder(t) => match input_features {
                    Some(fs) => texts(fs@),
                    None => Seq::new(t.spec_categories().len(), |j: int| default_name(j as nat)),
                },
                CategoricalTransformerKind::FrequencyEncoder(t) => Seq::new(
                    t.spec_categories().len(),
                    |j: int| input_name(input_texts(input_features), j),
                ),
            },
    {
        match self {
            CategoricalTransformerKind::OneHotEncoder(t) => t.feature_names_out(input_features),
            CategoricalTransformerKind::OrdinalEncoder(t) => t.feature_names_out(input_features),
            CategoricalTransformerKind::FrequencyEncoder(t) => t.feature_names_out(input_features),
        }
    }
}

} // verus!
