//! Default names of input features.

use vstd::prelude::*;
use crate::text::{decimal, usize_text};

verus! {

/// The default name of input feature `j`: `x` followed by its index.
pub open spec fn default_name(j: nat) -> Seq<char> {
    "x"@ + decimal(j)
}

/// The default name of feature `j`.
pub fn default_name_text(j: usize) -> (r: String)
    ensures
        r@ == default_name(j as nat),
{
    let mut s = "x".to_owned();
    let d = usize_text(j);
    s.append(d.as_str());
    s
}

/// The default names `x0, x1, ...` of `n` input features.
pub fn default_input_names(n: usize) -> (r: Vec<String>)
    ensures
        r@.len() == n,
        forall|j: int| 0 <= j < n ==> (#[trigger] r@[j])@ == default_name(j as nat),
{
    let mut out: Vec<String> = Vec::new();
    for j in 0..n
        invariant
            out@.len() == j,
            forall|k: int| 0 <= k < j ==> (#[trigger] out@[k])@ == default_name(k as nat),
    {
        out.push(default_name_text(j));
    }
    out
}

} // verus!
