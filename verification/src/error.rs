//! Error type returned by fallible operations.

use vstd::prelude::*;

verus! {

/// Errors returned by the library's fallible operations. The variant tells
/// which class of problem occurred; the text describes it.
#[derive(Debug)]
pub enum DatarustError {
    /// A transformer was used before being fitted.
    NotFitted(String),
    /// The supplied data is malformed or otherwise invalid for the operation.
    InvalidInput(String),
    /// Two operands did not have compatible dimensions.
    ShapeMismatch {
        /// A description of what was expected.
        expected: String,
        /// A description of what was actually provided.
        actual: String,
    },
    /// An empty collection was provided where at least one element is required.
    EmptyInput(String),
    /// A column (or set of columns) consisted entirely of missing values.
    AllMissing(String),
    /// A category unseen at fit time was encountered at transform time.
    UnknownCategory(String),
    /// A label unseen at fit time was encountered at transform time.
    UnknownLabel(String),
    /// A transformer was constructed with an illegal parameter combination.
    InvalidConfig(String),
    /// A numerical operation broke down (e.g. division by zero, singular matrix).
    Singular(String),
}

/// The human-readable message of an error.
pub open spec fn error_message(e: DatarustError) -> Seq<char> {
    match e {
        DatarustError::NotFitted(s) => "transformer not fitted: "@ + s@,
        DatarustError::InvalidInput(s) => "invalid input: "@ + s@,
        DatarustError::ShapeMismatch { expected, actual } => "shape mismatch: expected "@
            + expected@ + ", got "@ + actual@,
        DatarustError::EmptyInput(s) => "empty input: "@ + s@,
        DatarustError::AllMissing(s) => "all values missing: "@ + s@,
        DatarustError::UnknownCategory(s) => "unknown category: "@ + s@,
        DatarustError::UnknownLabel(s) => "unknown label: "@ + s@,
        DatarustError::InvalidConfig(s) => "invalid configuration: "@ + s@,
        DatarustError::Singular(s) => "singular/unstable operation: "@ + s@,
    }
}

/// `r` is an `EmptyInput` error with text `msg`.
pub open spec fn is_empty_input<T>(r: Result<T>, msg: Seq<char>) -> bool {
    r matches Err(DatarustError::EmptyInput(m)) && m@ == msg
}

/// `r` is an `InvalidInput` error with text `msg`.
pub open spec fn is_invalid_input<T>(r: Result<T>, msg: Seq<char>) -> bool {
    r matches Err(DatarustError::InvalidInput(m)) && m@ == msg
}

/// `r` is a `NotFitted` error with text `msg`.
pub open spec fn is_not_fitted<T>(r: Result<T>, msg: Seq<char>) -> bool {
    r matches Err(DatarustError::NotFitted(m)) && m@ == msg
}

/// `r` is an `UnknownCategory` error with text `msg`.
pub open spec fn is_unknown_category<T>(r: Result<T>, msg: Seq<char>) -> bool {
    r matches Err(DatarustError::UnknownCategory(m)) && m@ == msg
}

/// `r` is an `UnknownLabel` error with text `msg`.
pub open spec fn is_unknown_label<T>(r: Result<T>, msg: Seq<char>) -> bool {
    r matches Err(DatarustError::UnknownLabel(m)) && m@ == msg
}

/// `r` is an `InvalidConfig` error with text `msg`.
pub open spec fn is_invalid_config<T>(r: Result<T>, msg: Seq<char>) -> bool {
    r matches Err(DatarustError::InvalidConfig(m)) && m@ == msg
}

/// `r` is a `ShapeMismatch` error with the given texts.
pub open spec fn is_shape_mismatch<T>(r: Result<T>, exp: Seq<char>, act: Seq<char>) -> bool {
    r matches Err(DatarustError::ShapeMismatch { expected, actual }) && expected@ == exp
        && actual@ == act
}

/// The two errors are of the same kind (the same variant).
pub open spec fn same_kind(a: DatarustError, b: DatarustError) -> bool {
    match (a, b) {
        (DatarustError::NotFitted(_), DatarustError::NotFitted(_)) => true,
        (DatarustError::InvalidInput(_), DatarustError::InvalidInput(_)) => true,
        (DatarustError::ShapeMismatch { .. }, DatarustError::ShapeMismatch { .. }) => true,
        (DatarustError::EmptyInput(_), DatarustError::EmptyInput(_)) => true,
        (DatarustError::AllMissing(_), DatarustError::AllMissing(_)) => true,
        (DatarustError::UnknownCategory(_), DatarustError::UnknownCategory(_)) => true,
        (DatarustError::UnknownLabel(_), DatarustError::UnknownLabel(_)) => true,
        (DatarustError::InvalidConfig(_), DatarustError::InvalidConfig(_)) => true,
        (DatarustError::Singular(_), DatarustError::Singular(_)) => true,
        _ => false,
    }
}

/// The canonical `Result` type used throughout the crate.
pub type Result<T> = std::result::Result<T, DatarustError>;

impl DatarustError {
    /// The human-readable message of this error.
    pub fn to_string(&self) -> (r: String)
        ensures
            r@ == error_message(*self),
    {
        match self {
            DatarustError::NotFitted(s) => {
                let mut m = "transformer not fitted: ".to_owned();
                m.append(s.as_str());
                m
            },
            DatarustError::InvalidInput(s) => {
                let mut m = "invalid input: ".to_owned();
                m.append(s.as_str());
                m
            },
            DatarustError::ShapeMismatch { expected, actual } => {
                let mut m = "shape mismatch: expected ".to_owned();
                m.append(expected.as_str());
                m.append(", got ");
                m.append(actual.as_str());
                m
            },
            DatarustError::EmptyInput(s) => {
                let mut m = "empty input: ".to_owned();
                m.append(s.as_str());
                m
            },
            DatarustError::AllMissing(s) => {
                let mut m = "all values missing: ".to_owned();
                m.append(s.as_str());
                m
            },
            DatarustError::UnknownCategory(s) => {
                let mut m = "unknown category: ".to_owned();
                m.append(s.as_str());
                m
            },
            DatarustError::UnknownLabel(s) => {
                let mut m = "unknown label: ".to_owned();
                m.append(s.as_str());
                m
            },
            DatarustError::InvalidConfig(s) => {
                let mut m = "invalid configuration: ".to_owned();
                m.append(s.as_str());
                m
            },
            DatarustError::Singular(s) => {
                let mut m = "singular/unstable operation: ".to_owned();
                m.append(s.as_str());
                m
            },
        }
    }
}

} // verus!
