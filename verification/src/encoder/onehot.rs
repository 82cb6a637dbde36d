//! One-hot encoding of categorical columns.

use vstd::prelude::*;
use crate::error::{
    same_kind, is_empty_input, is_not_fitted, is_shape_mismatch, is_unknown_category, DatarustError, Result,
};
use crate::matrix::{
    csr_well_formed, is_ragged, is_rectangular, lemma_nonzero_positions, nonzero_positions,
    nonzero_values, row_lengths, lemma_stored_entry, dense_nonzeros, dense_ones, binary_codes,
    lemma_nonzeros_are_ones, stored_entry, CodeMatrix, SparseCodeMatrix,
    StrMatrix,
};
use crate::names::{default_name, default_name_text};
use crate::text::{
    decimal, is_strictly_sorted, lemma_text_lt_irreflexive, locate, sorted_unique, strictly_sorted,
    text_lt, texts, usize_text,
};
use crate::encoder::label::same_texts;

verus! {

/// How to handle unknown categories during `transform`.
#[derive(Debug, Clone, Copy, PartialEq, Eq, Structural)]
pub enum HandleUnknown {
    /// Raise an error on unknown categories (default).
    Error,
    /// Encode unknown categories as an all-zeros block.
    Ignore,
}

/// Whether to drop one category per column to avoid collinearity.
#[derive(Debug, Clone, Copy, PartialEq, Eq, Structural)]
pub enum DropStrategy {
    /// Keep all categories (default).
    KeepAll,
    /// Drop the first category (in sorted order) of each column.
    First,
}

/// Column `j` of a grid.
pub open spec fn column_of(g: Seq<Seq<Seq<char>>>, j: int) -> Seq<Seq<char>> {
    Seq::new(g.len(), |i: int| g[i][j])
}

/// The categories of one column that get an output column.
pub open spec fn kept(cats: Seq<Seq<char>>, drop: DropStrategy) -> Seq<Seq<char>> {
    match drop {
        DropStrategy::KeepAll => cats,
        DropStrategy::First => if cats.len() == 0 {
            cats
        } else {
            cats.subrange(1, cats.len() as int)
        },
    }
}

/// Number of output columns of the first `m` input columns.
pub open spec fn kept_total(cats: Seq<Seq<Seq<char>>>, drop: DropStrategy, m: int) -> nat
    decreases m,
{
    if m <= 0 {
        0
    } else {
        kept_total(cats, drop, m - 1) + kept(cats[m - 1], drop).len()
    }
}

/// The one-hot block of value `v` in a column with categories `cats`.
pub open spec fn block(cats: Seq<Seq<char>>, drop: DropStrategy, v: Seq<char>) -> Seq<i128> {
    Seq::new(kept(cats, drop).len(), |k: int| if kept(cats, drop)[k] == v { 1i128 } else { 0i128 })
}

/// The one-hot encoding of the first `m` cells of a row.
pub open spec fn encode_prefix(
    cats: Seq<Seq<Seq<char>>>,
    drop: DropStrategy,
    row: Seq<Seq<char>>,
    m: int,
) -> Seq<i128>
    decreases m,
{
    if m <= 0 {
        seq![]
    } else {
        encode_prefix(cats, drop, row, m - 1) + block(cats[m - 1], drop, row[m - 1])
    }
}

/// The one-hot encoding of a row.
pub open spec fn encode_row(cats: Seq<Seq<Seq<char>>>, drop: DropStrategy, row: Seq<Seq<char>>) -> Seq<i128> {
    encode_prefix(cats, drop, row, cats.len() as int)
}

/// Every cell's value is a category of its column.
pub open spec fn all_cells_known(cats: Seq<Seq<Seq<char>>>, g: Seq<Seq<Seq<char>>>) -> bool {
    forall|i: int, j: int|
        0 <= i < g.len() && 0 <= j < cats.len() ==> #[trigger] cats[j].contains(g[i][j])
}

/// Cell `(i, j)` is, in row-major order, the first whose value is not a
/// category of its column.
pub open spec fn first_unknown_cell(
    cats: Seq<Seq<Seq<char>>>,
    g: Seq<Seq<Seq<char>>>,
    i: int,
    j: int,
) -> bool {
    &&& 0 <= i < g.len()
    &&& 0 <= j < cats.len()
    &&& !cats[j].contains(g[i][j])
    &&& forall|a: int, b: int|
        0 <= a < i && 0 <= b < cats.len() ==> #[trigger] cats[b].contains(g[a][b])
    &&& forall|b: int| 0 <= b < j ==> #[trigger] cats[b].contains(g[i][b])
}

/// Cell `j` of `row` is the first whose value is not a category of its
/// column.
pub open spec fn first_unknown_in_row(cats: Seq<Seq<Seq<char>>>, row: Seq<Seq<char>>, j: int) -> bool {
    &&& 0 <= j < cats.len()
    &&& !cats[j].contains(row[j])
    &&& forall|b: int| 0 <= b < j ==> #[trigger] cats[b].contains(row[b])
}

/// The text of the error for an unknown category.
pub open spec fn unknown_cell_text(j: int, v: Seq<char>) -> Seq<char> {
    "column "@ + decimal(j as nat) + " value '"@ + v + "'"@
}

/// The name of input feature `j` given optional input names.
pub open spec fn input_name(input: Option<Seq<Seq<char>>>, j: int) -> Seq<char> {
    match input {
        Some(ns) => if 0 <= j < ns.len() {
            ns[j]
        } else {
            default_name(j as nat)
        },
        None => default_name(j as nat),
    }
}

/// Output feature names of the first `m` input columns.
pub open spec fn names_prefix(
    cats: Seq<Seq<Seq<char>>>,
    drop: DropStrategy,
    input: Option<Seq<Seq<char>>>,
    m: int,
) -> Seq<Seq<char>>
    decreases m,
{
    if m <= 0 {
        seq![]
    } else {
        names_prefix(cats, drop, input, m - 1) + Seq::new(
            kept(cats[m - 1], drop).len(),
            |k: int| input_name(input, m - 1) + "_"@ + kept(cats[m - 1], drop)[k],
        )
    }
}

/// The codes of the first `m` cells are as many as their kept categories.
pub proof fn lemma_encode_prefix_len(
    cats: Seq<Seq<Seq<char>>>,
    drop: DropStrategy,
    row: Seq<Seq<char>>,
    m: int,
)
    ensures
        encode_prefix(cats, drop, row, m).len() == kept_total(cats, drop, m),
    decreases m,
{
    if m > 0 {
        lemma_encode_prefix_len(cats, drop, row, m - 1);
    }
}

proof fn lemma_kept_total_monotone(cats: Seq<Seq<Seq<char>>>, drop: DropStrategy, a: int, b: int)
    requires
        a <= b,
    ensures
        kept_total(cats, drop, a) <= kept_total(cats, drop, b),
    decreases b - a,
{
    if a < b {
        lemma_kept_total_monotone(cats, drop, a, b - 1);
    }
}

/// Encode categorical features as one-hot numeric columns. Categories per
/// column are the distinct values seen at fit time, sorted in the order of
/// `str`.
#[derive(Debug)]
pub struct OneHotEncoder {
    drop: DropStrategy,
    handle_unknown: HandleUnknown,
    sparse_output: bool,
    categories: Vec<Vec<String>>,
    n_output_cols: usize,
    fitted: bool,
}

impl OneHotEncoder {
    #[verifier::type_invariant]
    spec fn inv(self) -> bool {
        &&& forall|j: int|
            0 <= j < self.categories@.len() ==> strictly_sorted(
                #[trigger] texts(self.categories@[j]@),
            )
        &&& kept_total(
            self.spec_categories(),
            DropStrategy::KeepAll,
            self.categories@.len() as int,
        ) <= usize::MAX
        &&& !self.fitted ==> self.categories@.len() == 0
    }

    /// The learned categories of each column, each in ascending order.
    pub closed spec fn spec_categories(&self) -> Seq<Seq<Seq<char>>> {
        Seq::new(self.categories@.len(), |j: int| texts(self.categories@[j]@))
    }

    /// Whether `fit` has run.
    pub closed spec fn spec_fitted(&self) -> bool {
        self.fitted
    }

    /// The drop strategy.
    pub closed spec fn spec_drop(&self) -> DropStrategy {
        self.drop
    }

    /// The policy for unknown categories.
    pub closed spec fn spec_handle_unknown(&self) -> HandleUnknown {
        self.handle_unknown
    }

    /// Whether sparse output was requested.
    pub closed spec fn spec_sparse(&self) -> bool {
        self.sparse_output
    }

    /// The number of output columns counted at fit time.
    pub closed spec fn spec_n_output_cols(&self) -> nat {
        self.n_output_cols as nat
    }

    /// An unfitted encoder keeping all categories and refusing unknown ones.
    pub fn new() -> (r: Self)
        ensures
            !r.spec_fitted(),
            r.spec_categories().len() == 0,
            r.spec_drop() == DropStrategy::KeepAll,
            r.spec_handle_unknown() == HandleUnknown::Error,
            !r.spec_sparse(),
            r.spec_n_output_cols() == 0,
    {
        let r = OneHotEncoder {
            drop: DropStrategy::KeepAll,
            handle_unknown: HandleUnknown::Error,
            sparse_output: false,
            categories: Vec::new(),
            n_output_cols: 0,
            fitted: false,
        };
        assert(r.spec_categories() =~= Seq::empty());
        r
    }

    /// Sets the drop strategy.
    pub fn drop(self, d: DropStrategy) -> (r: Self)
        ensures
            r.spec_drop() == d,
            r.spec_n_output_cols() == self.spec_n_output_cols(),
            r.spec_handle_unknown() == self.spec_handle_unknown(),
            r.spec_sparse() == self.spec_sparse(),
            r.spec_fitted() == self.spec_fitted(),
            r.spec_categories() == self.spec_categories(),
    {
        proof {
            use_type_invariant(&self);
        }
        let OneHotEncoder { drop: _, handle_unknown, sparse_output, categories, n_output_cols, fitted } = self;
        OneHotEncoder { drop: d, handle_unknown, sparse_output, categories, n_output_cols, fitted }
    }

    /// Sets the policy for unknown categories.
    pub fn handle_unknown(self, h: HandleUnknown) -> (r: Self)
        ensures
            r.spec_handle_unknown() == h,
            r.spec_n_output_cols() == self.spec_n_output_cols(),
            r.spec_drop() == self.spec_drop(),
            r.spec_sparse() == self.spec_sparse(),
            r.spec_fitted() == self.spec_fitted(),
            r.spec_categories() == self.spec_categories(),
    {
        proof {
            use_type_invariant(&self);
        }
        let OneHotEncoder { drop, handle_unknown: _, sparse_output, categories, n_output_cols, fitted } = self;
        OneHotEncoder { drop, handle_unknown: h, sparse_output, categories, n_output_cols, fitted }
    }

    /// Enables or disables sparse output.
    pub fn sparse_output(self, sparse: bool) -> (r: Self)
        ensures
            r.spec_sparse() == sparse,
            r.spec_n_output_cols() == self.spec_n_output_cols(),
            r.spec_drop() == self.spec_drop(),
            r.spec_handle_unknown() == self.spec_handle_unknown(),
            r.spec_fitted() == self.spec_fitted(),
            r.spec_categories() == self.spec_categories(),
    {
        proof {
            use_type_invariant(&self);
        }
        let OneHotEncoder { drop, handle_unknown, sparse_output: _, categories, n_output_cols, fitted } = self;
        OneHotEncoder { drop, handle_unknown, sparse_output: sparse, categories, n_output_cols, fitted }
    }

    /// Whether sparse output was requested.
    pub fn is_sparse(&self) -> (r: bool)
        ensures
            r == self.spec_sparse(),
    {
        self.sparse_output
    }

    /// The learned categories of each column.
    pub fn categories(&self) -> (r: &[Vec<String>])
        ensures
            r@.len() == self.spec_categories().len(),
            forall|j: int|
                0 <= j < r@.len() ==> texts((#[trigger] r@[j])@) == self.spec_categories()[j],
    {
        self.categories.as_slice()
    }

    /// Whether `fit` has run.
    pub fn is_fitted(&self) -> (r: bool)
        ensures
            r == self.spec_fitted(),
    {
        self.fitted
    }

    /// The drop strategy.
    pub fn drop_strategy(&self) -> (r: DropStrategy)
        ensures
            r == self.spec_drop(),
    {
        self.drop
    }

    /// The policy for unknown categories.
    pub fn unknown_policy(&self) -> (r: HandleUnknown)
        ensures
            r == self.spec_handle_unknown(),
    {
        self.handle_unknown
    }

    /// Number of output columns, as counted by the last `fit`.
    pub fn n_output_cols(&self) -> (r: usize)
        ensures
            r == self.spec_n_output_cols(),
    {
        self.n_output_cols
    }

    /// Learns the sorted distinct values of every column.
    pub fn fit(&mut self, x: &StrMatrix) -> (r: Result<()>)
        ensures
            r is Ok,
            Self::fitted_on(*old(self), *final(self), x@),
    {
        proof {
            use_type_invariant(x);
        }
        let ncols = x.ncols();
        let nrows = x.nrows();
        let d = self.drop;
        let mut categories: Vec<Vec<String>> = Vec::new();
        let mut total: usize = 0;
        let mut all: usize = 0;
        for j in 0..ncols
            invariant
                ncols == x@[0].len(),
                nrows == x@.len(),
                nrows * ncols <= usize::MAX,
                categories@.len() == j,
                total == kept_total(
                    Seq::new(categories@.len(), |k: int| texts(categories@[k]@)),
                    d,
                    j as int,
                ),
                all == kept_total(
                    Seq::new(categories@.len(), |k: int| texts(categories@[k]@)),
                    DropStrategy::KeepAll,
                    j as int,
                ),
                total <= all,
                all <= j * nrows,
                forall|k: int|
                    0 <= k < j ==> strictly_sorted(#[trigger] texts(categories@[k]@)) && same_texts(
                        texts(categories@[k]@),
                        column_of(x@, k),
                    ),
        {
            let col = x.column(j);
            let cats = sorted_unique(col.as_slice());
            assert(texts(col@) == column_of(x@, j as int));
            let len = cats.len();
            let k = match d {
                DropStrategy::KeepAll => len,
                DropStrategy::First => if len == 0 {
                    0
                } else {
                    len - 1
                },
            };
            assert(k <= nrows);
            assert(j * nrows + nrows <= nrows * ncols) by (nonlinear_arith)
                requires
                    j < ncols,
            ;
            let ghost before = Seq::new(categories@.len(), |k: int| texts(categories@[k]@));
            categories.push(cats);
            let ghost after = Seq::new(categories@.len(), |k: int| texts(categories@[k]@));
            assert(after.take(j as int) =~= before);
            assert(after[j as int] == texts(cats@));
            assert(kept(after[j as int], d).len() == k);
            assert(kept(after[j as int], DropStrategy::KeepAll).len() == len);
            proof {
                lemma_kept_total_prefix(before, after, d, j as int);
                lemma_kept_total_prefix(before, after, DropStrategy::KeepAll, j as int);
            }
            assert((j + 1) * nrows == j * nrows + nrows) by (nonlinear_arith);
            total = total + k;
            all = all + len;
        }
        *self = OneHotEncoder {
            drop: d,
            handle_unknown: self.handle_unknown,
            sparse_output: self.sparse_output,
            categories,
            n_output_cols: total,
            fitted: true,
        };
        Ok(())
    }
}

impl OneHotEncoder {
    /// What `transform` gives for the cells `g`: the refusals in the order
    /// they are checked, then the one-hot codes of every row.
    pub open spec fn transform_outcome(enc: OneHotEncoder, g: Seq<Seq<Seq<char>>>, r: Result<CodeMatrix>) -> bool {
        let cats = enc.spec_categories();
        let d = enc.spec_drop();
        let shape_ok = g[0].len() == cats.len();
        let known = enc.spec_handle_unknown() == HandleUnknown::Ignore || all_cells_known(
            cats,
            g,
        );
        &&& !enc.spec_fitted() ==> is_not_fitted(r, "OneHotEncoder"@)
        &&& enc.spec_fitted() && !shape_ok ==> is_shape_mismatch(
            r,
            decimal(cats.len()) + " categorical columns"@,
            decimal(g[0].len()) + " columns"@,
        )
        &&& enc.spec_fitted() && shape_ok && !known ==> exists|i: int, j: int|
            #[trigger] first_unknown_cell(cats, g, i, j) && is_unknown_category(
                r,
                unknown_cell_text(j, g[i][j]),
            )
        &&& enc.spec_fitted() && shape_ok && known && kept_total(cats, d, cats.len() as int)
            == 0 ==> is_empty_input(r, "matrix has no columns"@)
        &&& enc.spec_fitted() && shape_ok && known && kept_total(cats, d, cats.len() as int)
            > 0 ==> (r matches Ok(m) && m@ == Seq::new(
            g.len(),
            |i: int| encode_row(cats, d, g[i]),
        ))
    }

    /// `after` is `before` fitted on the cells `g`: the sorted distinct values
    /// of each column, with the settings kept.
    pub open spec fn fitted_on(before: OneHotEncoder, after: OneHotEncoder, g: Seq<Seq<Seq<char>>>) -> bool {
        &&& after.spec_drop() == before.spec_drop()
        &&& after.spec_handle_unknown() == before.spec_handle_unknown()
        &&& after.spec_sparse() == before.spec_sparse()
        &&& Self::learned_from(after, g)
    }

    /// `enc` is fitted and holds, for each column of the cells `g`, its
    /// sorted distinct values.
    pub open spec fn learned_from(enc: OneHotEncoder, g: Seq<Seq<Seq<char>>>) -> bool {
        let after = enc;
        &&& after.spec_fitted()
        &&& after.spec_categories().len() == g[0].len()
        &&& after.spec_n_output_cols() == kept_total(
            after.spec_categories(),
            after.spec_drop(),
            g[0].len() as int,
        )
        &&& forall|j: int|
            0 <= j < g[0].len() ==> strictly_sorted(#[trigger] after.spec_categories()[j])
                && same_texts(after.spec_categories()[j], column_of(g, j))
    }
}

impl OneHotEncoder {
    /// One-hot encodes every row: each input column becomes a block with one
    /// code per kept category, 1 where the value is that category and 0
    /// elsewhere. Unknown values are refused or, when ignored, give a block of
    /// zeros.
    pub fn transform(&self, x: &StrMatrix) -> (r: Result<CodeMatrix>)
        ensures
            Self::transform_outcome(*self, x@, r),
    {
        proof {
            use_type_invariant(self);
            use_type_invariant(x);
        }
        if !self.fitted {
            return Err(DatarustError::NotFitted("OneHotEncoder".to_owned()));
        }
        let ncats = self.categories.len();
        let xcols = x.ncols();
        if xcols != ncats {
            let mut expected = usize_text(ncats);
            expected.append(" categorical columns");
            let mut actual = usize_text(xcols);
            actual.append(" columns");
            return Err(DatarustError::ShapeMismatch { expected, actual });
        }
        let ghost cats = self.spec_categories();
        let ghost d = self.spec_drop();
        let ghost h = self.spec_handle_unknown();
        let nrows = x.nrows();
        let mut rows: Vec<Vec<i128>> = Vec::new();
        for i in 0..nrows
            invariant
                nrows == x@.len(),
                ncats == cats.len(),
                ncats == x@[0].len(),
                is_rectangular(x@),
                cats == self.spec_categories(),
                self.spec_fitted(),
                d == self.spec_drop(),
                h == self.spec_handle_unknown(),
                rows@.len() == i,
                forall|a: int| 0 <= a < i ==> (#[trigger] rows@[a])@ == encode_row(cats, d, x@[a]),
                h == HandleUnknown::Error ==> forall|a: int, b: int|
                    0 <= a < i && 0 <= b < ncats ==> #[trigger] cats[b].contains(x@[a][b]),
        {
            match self.encode_row_at(x, i) {
                Ok(row) => {
                    rows.push(row);
                },
                Err(e) => {
                    proof {
                        let j = choose|j: int|
                            #[trigger] first_unknown_in_row(cats, x@[i as int], j) && is_unknown_category(
                                Err::<Vec<i128>, DatarustError>(e),
                                unknown_cell_text(j, x@[i as int][j]),
                            );
                        assert(first_unknown_cell(cats, x@, i as int, j));
                    }
                    return Err(e);
                },
            }
        }
        proof {
            let g = Seq::new(rows@.len(), |a: int| rows@[a]@);
            assert forall|a: int| 0 <= a < g.len() implies (#[trigger] g[a]).len() == kept_total(
                cats,
                d,
                ncats as int,
            ) by {
                lemma_encode_prefix_len(cats, d, x@[a], ncats as int);
            }
            assert(row_lengths(g) =~= Seq::new(g.len(), |a: int| kept_total(cats, d, ncats as int) as int));
            assert(!is_ragged(row_lengths(g)));
            assert(g =~= Seq::new(x@.len(), |a: int| encode_row(cats, d, x@[a])));
            if h == HandleUnknown::Error {
                assert(all_cells_known(cats, x@));
            }
        }
        CodeMatrix::new(rows)
    }

    /// The codes of row `i` of `x`: one block per column. Under
    /// `HandleUnknown::Error` the row's first unknown value is refused.
    fn encode_row_at(&self, x: &StrMatrix, i: usize) -> (r: Result<Vec<i128>>)
        requires
            self.spec_fitted(),
            x@[0].len() == self.spec_categories().len(),
            i < x@.len(),
        ensures
            ({
                let cats = self.spec_categories();
                let row = x@[i as int];
                let known = self.spec_handle_unknown() == HandleUnknown::Ignore || forall|b: int|
                    0 <= b < cats.len() ==> #[trigger] cats[b].contains(row[b]);
                &&& known ==> (r matches Ok(codes) && codes@ == encode_row(cats, self.spec_drop(), row))
                &&& !known ==> exists|j: int|
                    #[trigger] first_unknown_in_row(cats, row, j) && is_unknown_category(
                        r,
                        unknown_cell_text(j, row[j]),
                    )
            }),
    {
        proof {
            use_type_invariant(self);
            use_type_invariant(x);
            assert(x@[i as int].len() == x@[0].len());
        }
        let ghost cats = self.spec_categories();
        let d = self.drop;
        let h = self.handle_unknown;
        let ncats = self.categories.len();
        let mut out_row: Vec<i128> = Vec::new();
        for j in 0..ncats
            invariant
                i < x@.len(),
                ncats == cats.len(),
                ncats == self.categories@.len(),
                ncats == x@[0].len(),
                x@[i as int].len() == ncats,
                is_rectangular(x@),
                cats == self.spec_categories(),
                d == self.spec_drop(),
                h == self.spec_handle_unknown(),
                forall|j: int| 0 <= j < ncats ==> strictly_sorted(#[trigger] cats[j]),
                out_row@ == encode_prefix(cats, d, x@[i as int], j as int),
                h == HandleUnknown::Error ==> forall|b: int|
                    0 <= b < j ==> #[trigger] cats[b].contains(x@[i as int][b]),
        {
            let v = x.get(i, j);
            let list = self.categories[j].as_slice();
            assert(texts(list@) == cats[j as int]);
            let slot = locate(list, v);
            if !slot.found {
                match h {
                    HandleUnknown::Error => {
                        let mut m = "column ".to_owned();
                        let jt = usize_text(j);
                        m.append(jt.as_str());
                        m.append(" value '");
                        m.append(v);
                        m.append("'");
                        assert(first_unknown_in_row(cats, x@[i as int], j as int));
                        return Err(DatarustError::UnknownCategory(m));
                    },
                    HandleUnknown::Ignore => {},
                }
            }
            let len = list.len();
            let shift: usize = match d {
                DropStrategy::KeepAll => 0,
                DropStrategy::First => if len == 0 {
                    0
                } else {
                    1
                },
            };
            let klen = len - shift;
            let ghost kc = kept(cats[j as int], d);
            let ghost blk = block(cats[j as int], d, x@[i as int][j as int]);
            let ghost prefix = out_row@;
            assert(kc.len() == klen);
            for k in 0..klen
                invariant
                    klen == kc.len(),
                    kc == kept(cats[j as int], d),
                    blk == block(cats[j as int], d, x@[i as int][j as int]),
                    texts(list@) == cats[j as int],
                    strictly_sorted(cats[j as int]),
                    len == list@.len(),
                    shift + klen == len,
                    forall|t: int| 0 <= t < klen ==> #[trigger] kc[t] == cats[j as int][t + shift],
                    v@ == x@[i as int][j as int],
                    slot.found ==> slot.position < len && cats[j as int][slot.position as int] == v@,
                    !slot.found ==> !cats[j as int].contains(v@),
                    out_row@ == prefix + blk.take(k as int),
            {
                let one = slot.found && k + shift == slot.position;
                proof {
                    let p = k + shift;
                    if slot.found && p != slot.position {
                        crate::text::lemma_sorted_no_duplicates(cats[j as int]);
                        if p < slot.position {
                            assert(cats[j as int][p as int] != cats[j as int][slot.position as int]);
                        } else {
                            assert(cats[j as int][slot.position as int] != cats[j as int][p as int]);
                        }
                    }
                    if !slot.found {
                        assert(cats[j as int][p as int] == kc[k as int]);
                        if kc[k as int] == v@ {
                            assert(cats[j as int].contains(v@));
                        }
                    }
                    assert(blk[k as int] == (if one { 1i128 } else { 0i128 }));
                }
                out_row.push(if one { 1 } else { 0 });
                assert(prefix + blk.take(k + 1) =~= (prefix + blk.take(k as int)).push(blk[k as int]));
            }
            assert(blk.take(klen as int) =~= blk);
        }
        Ok(out_row)
    }
}

impl OneHotEncoder {
    /// Fits on `x`, then encodes it.
    pub fn fit_transform(&mut self, x: &StrMatrix) -> (r: Result<CodeMatrix>)
        ensures
            Self::fitted_on(*old(self), *final(self), x@),
            final(self).spec_n_output_cols() == 0 ==> is_empty_input(r, "matrix has no columns"@),
            final(self).spec_n_output_cols() > 0 ==> (r matches Ok(m) && m@ == Seq::new(
                x@.len(),
                |i: int| encode_row(final(self).spec_categories(), final(self).spec_drop(), x@[i]),
            )),
    {
        proof {
            use_type_invariant(x);
        }
        let _ = self.fit(x);
        proof {
            let cats = self.spec_categories();
            assert forall|i: int, j: int|
                0 <= i < x@.len() && 0 <= j < cats.len() implies #[trigger] cats[j].contains(
                x@[i][j],
            ) by {
                assert(column_of(x@, j)[i] == x@[i][j]);
                assert(column_of(x@, j).contains(x@[i][j]));
            }
        }
        self.transform(x)
    }

    /// Output feature names: for each input column, its name followed by `_`
    /// and the category, for each kept category. Missing input names default
    /// to `x0, x1, ...`.
    pub fn feature_names_out(&self, input_features: Option<&[String]>) -> (r: Vec<String>)
        ensures
            texts(r@) == names_prefix(
                self.spec_categories(),
                self.spec_drop(),
                match input_features {
                    Some(fs) => Some(texts(fs@)),
                    None => None,
                },
                self.spec_categories().len() as int,
            ),
    {
        let ghost input = match input_features {
            Some(fs) => Some(texts(fs@)),
            None => None,
        };
        let ghost cats = self.spec_categories();
        let d = self.drop;
        let ncats = self.categories.len();
        let mut out: Vec<String> = Vec::new();
        for j in 0..ncats
            invariant
                ncats == cats.len(),
                ncats == self.categories@.len(),
                cats == self.spec_categories(),
                d == self.spec_drop(),
                input == match input_features {
                    Some(fs) => Some(texts(fs@)),
                    None => None,
                },
                texts(out@) == names_prefix(cats, d, input, j as int),
        {
            let col_name: String = match input_features {
                Some(fs) => if j < fs.len() {
                    fs[j].clone()
                } else {
                    default_name_text(j)
                },
                None => default_name_text(j),
            };
            assert(col_name@ == input_name(input, j as int));
            let list = &self.categories[j];
            assert(texts(list@) == cats[j as int]);
            let len = list.len();
            let start: usize = match d {
                DropStrategy::KeepAll => 0,
                DropStrategy::First => if len == 0 {
                    0
                } else {
                    1
                },
            };
            let ghost kc = kept(cats[j as int], d);
            let ghost added = Seq::new(
                kc.len(),
                |k: int| input_name(input, j as int) + "_"@ + kc[k],
            );
            let ghost prefix = texts(out@);
            assert(kc.len() == len - start);
            for k in start..len
                invariant
                    start <= len,
                    len == list@.len(),
                    texts(list@) == cats[j as int],
                    kc == kept(cats[j as int], d),
                    kc.len() == len - start,
                    forall|t: int| 0 <= t < kc.len() ==> #[trigger] kc[t] == cats[j as int][t + start],
                    col_name@ == input_name(input, j as int),
                    added == Seq::new(
                        kc.len(),
                        |k: int| input_name(input, j as int) + "_"@ + kc[k],
                    ),
                    texts(out@) == prefix + added.take(k - start),
            {
                let mut name = col_name.clone();
                name.append("_");
                name.append(list[k].as_str());
                assert(name@ == added[k - start]);
                let ghost before = texts(out@);
                out.push(name);
                assert(texts(out@) =~= before.push(name@));
                assert(prefix + added.take(k + 1 - start) =~= (prefix + added.take(k - start)).push(added[k - start]));
            }
            assert(added.take(len - start) =~= added);
        }
        out
    }
}

impl Default for OneHotEncoder {
    fn default() -> (r: Self)
        ensures
            !r.spec_fitted(),
            r.spec_categories().len() == 0,
            r.spec_drop() == DropStrategy::KeepAll,
            r.spec_handle_unknown() == HandleUnknown::Error,
            !r.spec_sparse(),
            r.spec_n_output_cols() == 0,
    {
        Self::new()
    }
}

/// A copy of a list of lists of strings.
pub(crate) fn copy_lists(lists: &Vec<Vec<String>>) -> (r: Vec<Vec<String>>)
    ensures
        r@.len() == lists@.len(),
        forall|j: int| 0 <= j < lists@.len() ==> texts((#[trigger] r@[j])@) == texts(lists@[j]@),
{
    let n = lists.len();
    let mut copy: Vec<Vec<String>> = Vec::new();
    for j in 0..n
        invariant
            n == lists@.len(),
            copy@.len() == j,
            forall|k: int| 0 <= k < j ==> texts((#[trigger] copy@[k])@) == texts(lists@[k]@),
    {
        let src = &lists[j];
        let m = src.len();
        let mut row: Vec<String> = Vec::new();
        for t in 0..m
            invariant
                m == src@.len(),
                row@.len() == t,
                forall|a: int| 0 <= a < t ==> (#[trigger] row@[a])@ == src@[a]@,
        {
            row.push(src[t].clone());
        }
        assert(texts(row@) =~= texts(src@));
        copy.push(row);
    }
    copy
}

impl Clone for OneHotEncoder {
    fn clone(&self) -> (r: Self)
        ensures
            r.spec_fitted() == self.spec_fitted(),
            r.spec_categories() == self.spec_categories(),
            r.spec_drop() == self.spec_drop(),
            r.spec_handle_unknown() == self.spec_handle_unknown(),
            r.spec_sparse() == self.spec_sparse(),
            r.spec_n_output_cols() == self.spec_n_output_cols(),
    {
        proof {
            use_type_invariant(self);
        }
        let categories = copy_lists(&self.categories);
        let ghost cats = Seq::new(categories@.len(), |j: int| texts(categories@[j]@));
        assert(cats =~= self.spec_categories());
        proof {
            lemma_kept_total_prefix(
                cats,
                self.spec_categories(),
                DropStrategy::KeepAll,
                cats.len() as int,
            );
        }
        let r = OneHotEncoder {
            drop: self.drop,
            handle_unknown: self.handle_unknown,
            sparse_output: self.sparse_output,
            categories,
            n_output_cols: self.n_output_cols,
            fitted: self.fitted,
        };
        assert(r.spec_categories() =~= self.spec_categories());
        r
    }
}

/// `kept_total` of a prefix only depends on that prefix.
proof fn lemma_kept_total_prefix(
    before: Seq<Seq<Seq<char>>>,
    after: Seq<Seq<Seq<char>>>,
    d: DropStrategy,
    m: int,
)
    requires
        0 <= m <= before.len(),
        m <= after.len(),
        forall|k: int| 0 <= k < m ==> before[k] == after[k],
    ensures
        kept_total(before, d, m) == kept_total(after, d, m),
    decreases m,
{
    if m > 0 {
        lemma_kept_total_prefix(before, after, d, m - 1);
    }
}

proof fn lemma_names_prefix_len(
    cats: Seq<Seq<Seq<char>>>,
    drop: DropStrategy,
    input: Option<Seq<Seq<char>>>,
    m: int,
)
    ensures
        names_prefix(cats, drop, input, m).len() == kept_total(cats, drop, m),
    decreases m,
{
    if m > 0 {
        lemma_names_prefix_len(cats, drop, input, m - 1);
    }
}

/// The output feature names of an encoder are as many as the codes of any
/// encoded row: one per kept category of each column.
pub proof fn lemma_names_match_row_width(enc: OneHotEncoder, input: Option<Seq<Seq<char>>>, row: Seq<Seq<char>>)
    ensures
        names_prefix(
            enc.spec_categories(),
            enc.spec_drop(),
            input,
            enc.spec_categories().len() as int,
        ).len() == encode_row(enc.spec_categories(), enc.spec_drop(), row).len(),
        encode_row(enc.spec_categories(), enc.spec_drop(), row).len() == kept_total(
            enc.spec_categories(),
            enc.spec_drop(),
            enc.spec_categories().len() as int,
        ),
{
    let cats = enc.spec_categories();
    lemma_names_prefix_len(cats, enc.spec_drop(), input, cats.len() as int);
    lemma_encode_prefix_len(cats, enc.spec_drop(), row, cats.len() as int);
}

/// In every block of a known value with all categories kept, exactly one
/// code is 1: the one of the value's category.
pub proof fn lemma_block_one_hot(cats: Seq<Seq<char>>, v: Seq<char>, k: int)
    requires
        strictly_sorted(cats),
        0 <= k < cats.len(),
        cats[k] == v,
    ensures
        block(cats, DropStrategy::KeepAll, v)[k] == 1,
        forall|t: int|
            0 <= t < cats.len() && t != k ==> #[trigger] block(cats, DropStrategy::KeepAll, v)[t] == 0,
{
    assert forall|t: int| 0 <= t < cats.len() && t != k implies #[trigger] block(
        cats,
        DropStrategy::KeepAll,
        v,
    )[t] == 0 by {
        if t < k {
            assert(text_lt(cats[t], cats[k]));
            lemma_text_lt_irreflexive(cats[t]);
        } else {
            assert(text_lt(cats[k], cats[t]));
            lemma_text_lt_irreflexive(cats[k]);
        }
    }
}

/// Rows stored as the non-zero codes of their one-hot encodings form
/// well-formed compressed sparse rows.
proof fn lemma_encoded_rows_csr(
    cats: Seq<Seq<Seq<char>>>,
    d: DropStrategy,
    g: Seq<Seq<Seq<char>>>,
    width: nat,
    indptr: Seq<usize>,
    indices: Seq<usize>,
    data: Seq<i128>,
)
    requires
        width == kept_total(cats, d, cats.len() as int),
        width <= usize::MAX,
        indptr.len() == g.len() + 1,
        indptr[0] == 0,
        forall|a: int, b: int| 0 <= a <= b <= g.len() ==> indptr[a] <= indptr[b],
        indptr[g.len() as int] == indices.len(),
        indices.len() == data.len(),
        forall|t: int| 0 <= t < indices.len() ==> #[trigger] indices[t] < width,
        forall|a: int|
            0 <= a < g.len() ==> #[trigger] indices.subrange(indptr[a] as int, indptr[a + 1] as int)
                == nonzero_positions(encode_row(cats, d, g[a])),
    ensures
        csr_well_formed(g.len(), width, indptr, indices, data),
{
    reveal(csr_well_formed);
    assert forall|i: int, a: int, b: int|
        #![trigger indptr[i], indices[a], indices[b]]
        0 <= i < g.len() && indptr[i] <= a < b < indptr[i + 1] implies indices[a] < indices[b] by {
        let enc = encode_row(cats, d, g[i]);
        lemma_encode_prefix_len(cats, d, g[i], cats.len() as int);
        lemma_nonzero_positions(enc);
        let sub = indices.subrange(indptr[i] as int, indptr[i + 1] as int);
        assert(sub == nonzero_positions(enc));
        assert(sub[a - indptr[i]] == indices[a]);
        assert(sub[b - indptr[i]] == indices[b]);
    }
}

impl OneHotEncoder {
    /// What `transform_sparse` gives for the cells `g`: the refusals of
    /// `transform`, an empty output refused as a zero dimension, and
    /// otherwise, for every row, the columns and codes of its non-zero
    /// one-hot codes.
    pub open spec fn sparse_outcome(enc: OneHotEncoder, g: Seq<Seq<Seq<char>>>, r: Result<SparseCodeMatrix>) -> bool {
        let cats = enc.spec_categories();
        let d = enc.spec_drop();
        let shape_ok = g[0].len() == cats.len();
        let known = enc.spec_handle_unknown() == HandleUnknown::Ignore || all_cells_known(cats, g);
        let width = kept_total(cats, d, cats.len() as int);
        &&& !enc.spec_fitted() ==> is_not_fitted(r, "OneHotEncoder"@)
        &&& enc.spec_fitted() && !shape_ok ==> is_shape_mismatch(
            r,
            decimal(cats.len()) + " categorical columns"@,
            decimal(g[0].len()) + " columns"@,
        )
        &&& enc.spec_fitted() && shape_ok && !known ==> exists|i: int, j: int|
            #[trigger] first_unknown_cell(cats, g, i, j) && is_unknown_category(
                r,
                unknown_cell_text(j, g[i][j]),
            )
        &&& enc.spec_fitted() && shape_ok && known && width == 0 ==> is_empty_input(
            r,
            "zero dimension"@,
        )
        &&& enc.spec_fitted() && shape_ok && known && width > 0 ==> (r matches Ok(m) && {
            &&& m.spec_nrows() == g.len()
            &&& m.spec_ncols() == width
            &&& forall|i: int|
                0 <= i < g.len() ==> #[trigger] m.spec_row_columns(i) == nonzero_positions(
                    encode_row(cats, d, g[i]),
                ) && m.spec_row_values(i) == nonzero_values(encode_row(cats, d, g[i]))
            &&& m.spec_nnz() == dense_nonzeros(Seq::new(g.len(), |i: int| encode_row(cats, d, g[i])))
        })
    }

    /// The number of output columns under the current drop strategy.
    fn output_width(&self) -> (r: usize)
        ensures
            r == kept_total(self.spec_categories(), self.spec_drop(), self.spec_categories().len() as int),
    {
        proof {
            use_type_invariant(self);
        }
        let ghost cats = self.spec_categories();
        let n = self.categories.len();
        let mut total: usize = 0;
        for j in 0..n
            invariant
                n == cats.len(),
                cats == self.spec_categories(),
                kept_total(cats, DropStrategy::KeepAll, n as int) <= usize::MAX,
                total == kept_total(cats, self.spec_drop(), j as int),
                total <= kept_total(cats, DropStrategy::KeepAll, j as int),
        {
            let len = self.categories[j].len();
            assert(texts(self.categories@[j as int]@) == cats[j as int]);
            let k = match self.drop {
                DropStrategy::KeepAll => len,
                DropStrategy::First => if len == 0 {
                    0
                } else {
                    len - 1
                },
            };
            proof {
                lemma_kept_total_monotone(cats, DropStrategy::KeepAll, j + 1, n as int);
            }
            total = total + k;
        }
        total
    }

    /// One-hot encodes every row into compressed sparse rows: the same codes
    /// as `transform`, storing only the ones.
    pub fn transform_sparse(&self, x: &StrMatrix) -> (r: Result<SparseCodeMatrix>)
        ensures
            Self::sparse_outcome(*self, x@, r),
    {
        proof {
            use_type_invariant(self);
            use_type_invariant(x);
        }
        if !self.fitted {
            return Err(DatarustError::NotFitted("OneHotEncoder".to_owned()));
        }
        let ncats = self.categories.len();
        let xcols = x.ncols();
        if xcols != ncats {
            let mut expected = usize_text(ncats);
            expected.append(" categorical columns");
            let mut actual = usize_text(xcols);
            actual.append(" columns");
            return Err(DatarustError::ShapeMismatch { expected, actual });
        }
        let ghost cats = self.spec_categories();
        let ghost d = self.spec_drop();
        let ghost h = self.spec_handle_unknown();
        let width = self.output_width();
        let nrows = x.nrows();
        let mut indptr: Vec<usize> = Vec::new();
        let mut indices: Vec<usize> = Vec::new();
        let mut data: Vec<i128> = Vec::new();
        indptr.push(0);
        for i in 0..nrows
            invariant
                nrows == x@.len(),
                ncats == cats.len(),
                ncats == x@[0].len(),
                is_rectangular(x@),
                cats == self.spec_categories(),
                self.spec_fitted(),
                d == self.spec_drop(),
                h == self.spec_handle_unknown(),
                width == kept_total(cats, d, ncats as int),
                indptr@.len() == i + 1,
                indptr@[0] == 0,
                forall|a: int, b: int| 0 <= a <= b <= i ==> indptr@[a] <= indptr@[b],
                indptr@[i as int] == indices@.len(),
                indices@.len() == data@.len(),
                indices@.len() == dense_nonzeros(
                    Seq::new(i as nat, |a: int| encode_row(cats, d, x@[a])),
                ),
                forall|t: int| 0 <= t < indices@.len() ==> #[trigger] indices@[t] < width,
                forall|a: int|
                    0 <= a < i ==> #[trigger] indices@.subrange(
                        indptr@[a] as int,
                        indptr@[a + 1] as int,
                    ) == nonzero_positions(encode_row(cats, d, x@[a])),
                forall|a: int|
                    0 <= a < i ==> #[trigger] data@.subrange(
                        indptr@[a] as int,
                        indptr@[a + 1] as int,
                    ) == nonzero_values(encode_row(cats, d, x@[a])),
                h == HandleUnknown::Error ==> forall|a: int, b: int|
                    0 <= a < i && 0 <= b < ncats ==> #[trigger] cats[b].contains(x@[a][b]),
        {
            let row = match self.encode_row_at(x, i) {
                Ok(row) => row,
                Err(e) => {
                    proof {
                        let j = choose|j: int|
                            #[trigger] first_unknown_in_row(cats, x@[i as int], j) && is_unknown_category(
                                Err::<Vec<i128>, DatarustError>(e),
                                unknown_cell_text(j, x@[i as int][j]),
                            );
                        assert(first_unknown_cell(cats, x@, i as int, j));
                    }
                    return Err(e);
                },
            };
            let ghost enc = encode_row(cats, d, x@[i as int]);
            proof {
                lemma_encode_prefix_len(cats, d, x@[i as int], ncats as int);
                lemma_nonzero_positions(enc);
            }
            let start = indices.len();
            let ghost old_indices = indices@;
            let ghost old_data = data@;
            let m = row.len();
            for k in 0..m
                invariant
                    m == row@.len(),
                    row@ == enc,
                    m == width,
                    indices@ == old_indices + nonzero_positions(enc.take(k as int)),
                    data@ == old_data + nonzero_values(enc.take(k as int)),
                    start == old_indices.len(),
                    old_indices.len() == old_data.len(),
                    forall|t: int| 0 <= t < old_indices.len() ==> #[trigger] old_indices[t] < width,
                    forall|t: int| 0 <= t < indices@.len() ==> #[trigger] indices@[t] < width,
            {
                let c = row[k];
                assert(enc.take(k + 1).drop_last() =~= enc.take(k as int));
                if c != 0 {
                    indices.push(k);
                    data.push(c);
                }
                assert(indices@ =~= old_indices + nonzero_positions(enc.take(k + 1)));
                assert(data@ =~= old_data + nonzero_values(enc.take(k + 1)));
            }
            assert(enc.take(m as int) =~= enc);
            assert(Seq::new((i + 1) as nat, |a: int| encode_row(cats, d, x@[a])).drop_last() =~= Seq::new(
                i as nat,
                |a: int| encode_row(cats, d, x@[a]),
            ));
            let ghost before_ptr = indptr@;
            indptr.push(indices.len());
            proof {
                assert(indices@.subrange(start as int, indices@.len() as int) =~= nonzero_positions(enc));
                assert(data@.subrange(start as int, data@.len() as int) =~= nonzero_values(enc));
                assert forall|a: int|
                    0 <= a < i + 1 implies #[trigger] indices@.subrange(
                        indptr@[a] as int,
                        indptr@[a + 1] as int,
                    ) == nonzero_positions(encode_row(cats, d, x@[a])) by {
                    if a < i {
                        assert(indptr@[a + 1] <= indptr@[i as int]);
                        assert(indices@.subrange(indptr@[a] as int, indptr@[a + 1] as int)
                            =~= old_indices.subrange(indptr@[a] as int, indptr@[a + 1] as int));
                    }
                }
                assert forall|a: int|
                    0 <= a < i + 1 implies #[trigger] data@.subrange(
                        indptr@[a] as int,
                        indptr@[a + 1] as int,
                    ) == nonzero_values(encode_row(cats, d, x@[a])) by {
                    if a < i {
                        assert(indptr@[a + 1] <= indptr@[i as int]);
                        assert(data@.subrange(indptr@[a] as int, indptr@[a + 1] as int)
                            =~= old_data.subrange(indptr@[a] as int, indptr@[a + 1] as int));
                    }
                }
                assert forall|a: int, b: int| 0 <= a <= b <= i + 1 implies indptr@[a] <= indptr@[b] by {
                    if b == i + 1 && a <= i {
                        assert(before_ptr[a] <= before_ptr[i as int]);
                    }
                }
            }
        }
        if width == 0 {
            return Err(DatarustError::EmptyInput("zero dimension".to_owned()));
        }
        proof {
            lemma_encoded_rows_csr(cats, d, x@, width as nat, indptr@, indices@, data@);
            if h == HandleUnknown::Error {
                assert(all_cells_known(cats, x@));
            }
        }
        let m = SparseCodeMatrix::from_parts(nrows, width, indptr, indices, data);
        assert(Seq::new(nrows as nat, |a: int| encode_row(cats, d, x@[a])) =~= Seq::new(
            x@.len(),
            |a: int| encode_row(cats, d, x@[a]),
        ));
        Ok(m)
    }

    /// Fits on `x`, then encodes it into compressed sparse rows.
    pub fn fit_transform_sparse(&mut self, x: &StrMatrix) -> (r: Result<SparseCodeMatrix>)
        ensures
            Self::fitted_on(*old(self), *final(self), x@),
            Self::sparse_outcome(*final(self), x@, r),
    {
        let _ = self.fit(x);
        self.transform_sparse(x)
    }

    /// Encodes densely, or into sparse rows when sparse output was asked
    /// for.
    pub fn transform_auto(&self, x: &StrMatrix) -> (r: Result<OneHotOutput>)
        ensures
            self.spec_sparse() ==> (match r {
                Ok(OneHotOutput::Sparse(m)) => Self::sparse_outcome(*self, x@, Ok(m)),
                Ok(OneHotOutput::Dense(_)) => false,
                Err(e) => Self::sparse_outcome(*self, x@, Err(e)),
            }),
            !self.spec_sparse() ==> (match r {
                Ok(OneHotOutput::Dense(m)) => Self::transform_outcome(*self, x@, Ok(m)),
                Ok(OneHotOutput::Sparse(_)) => false,
                Err(e) => Self::transform_outcome(*self, x@, Err(e)),
            }),
    {
        if self.sparse_output {
            match self.transform_sparse(x) {
                Ok(m) => Ok(OneHotOutput::Sparse(m)),
                Err(e) => Err(e),
            }
        } else {
            match self.transform(x) {
                Ok(m) => Ok(OneHotOutput::Dense(m)),
                Err(e) => Err(e),
            }
        }
    }
}

/// The output of [`OneHotEncoder::transform_auto`].
#[derive(Debug)]
pub enum OneHotOutput {
    /// Every code, row by row.
    Dense(CodeMatrix),
    /// Only the non-zero codes, as compressed sparse rows.
    Sparse(SparseCodeMatrix),
}

/// The sparse and dense encodings of the same cells agree: the entry read
/// from the sparse rows at any row and column is the dense code there.
pub proof fn lemma_sparse_matches_dense(
    enc: OneHotEncoder,
    g: Seq<Seq<Seq<char>>>,
    sparse: SparseCodeMatrix,
    dense: CodeMatrix,
    i: int,
    j: usize,
)
    requires
        OneHotEncoder::transform_outcome(enc, g, Ok(dense)),
        OneHotEncoder::sparse_outcome(enc, g, Ok(sparse)),
        0 <= i < g.len(),
        j < sparse.spec_ncols(),
    ensures
        stored_entry(sparse.spec_row_columns(i), sparse.spec_row_values(i), j) == dense@[i][j as int],
{
    let cats = enc.spec_categories();
    let d = enc.spec_drop();
    let row = encode_row(cats, d, g[i]);
    sparse.lemma_ncols_bound();
    lemma_encode_prefix_len(cats, d, g[i], cats.len() as int);
    lemma_stored_entry(row, j as int);
}

impl OneHotEncoder {
    /// Rebuilds an encoder from a saved state: its settings, its categories
    /// per column, the output-column count recorded at fit time, and whether
    /// it is fitted. A state no encoder can be in (a column's categories not
    /// sorted and distinct, categories without a fit, or more categories in
    /// all than `usize` counts) gives `None`.
    pub fn restore(
        drop: DropStrategy,
        handle_unknown: HandleUnknown,
        sparse_output: bool,
        categories: Vec<Vec<String>>,
        n_output_cols: usize,
        fitted: bool,
    ) -> (r: Option<Self>)
        ensures
            ({
                let cats = Seq::new(categories@.len(), |j: int| texts(categories@[j]@));
                let valid = (forall|j: int| 0 <= j < cats.len() ==> strictly_sorted(#[trigger] cats[j]))
                    && kept_total(cats, DropStrategy::KeepAll, cats.len() as int) <= usize::MAX && (
                fitted || cats.len() == 0);
                &&& valid ==> (r matches Some(e) && e.spec_categories() == cats && e.spec_drop() == drop
                    && e.spec_handle_unknown() == handle_unknown && e.spec_sparse() == sparse_output
                    && e.spec_n_output_cols() == n_output_cols && e.spec_fitted() == fitted)
                &&& !valid ==> r is None
            }),
    {
        let ghost cats = Seq::new(categories@.len(), |j: int| texts(categories@[j]@));
        let n = categories.len();
        if !fitted && n > 0 {
            return None;
        }
        let mut total: usize = 0;
        for j in 0..n
            invariant
                n == cats.len(),
                cats == Seq::new(categories@.len(), |j: int| texts(categories@[j]@)),
                total == kept_total(cats, DropStrategy::KeepAll, j as int),
                forall|k: int| 0 <= k < j ==> strictly_sorted(#[trigger] cats[k]),
        {
            let list = &categories[j];
            assert(texts(list@) == cats[j as int]);
            if !is_strictly_sorted(list.as_slice()) {
                return None;
            }
            match total.checked_add(list.len()) {
                Some(t) => {
                    total = t;
                },
                None => {
                    proof {
                        lemma_kept_total_monotone(cats, DropStrategy::KeepAll, j + 1, n as int);
                    }
                    return None;
                },
            }
        }
        assert forall|j: int| 0 <= j < categories@.len() implies strictly_sorted(
            #[trigger] texts(categories@[j]@),
        ) by {
            assert(cats[j] == texts(categories@[j]@));
        }
        assert(kept_total(cats, DropStrategy::KeepAll, n as int) <= usize::MAX);
        let e = OneHotEncoder {
            drop,
            handle_unknown,
            sparse_output,
            categories,
            n_output_cols,
            fitted,
        };
        assert(e.spec_categories() =~= cats);
        Some(e)
    }
}

/// Every one-hot code is 0 or 1.
pub proof fn lemma_encode_prefix_binary(
    cats: Seq<Seq<Seq<char>>>,
    drop: DropStrategy,
    row: Seq<Seq<char>>,
    m: int,
)
    ensures
        binary_codes(encode_prefix(cats, drop, row, m)),
    decreases m,
{
    if m > 0 {
        lemma_encode_prefix_binary(cats, drop, row, m - 1);
        let a = encode_prefix(cats, drop, row, m - 1);
        let b = block(cats[m - 1], drop, row[m - 1]);
        assert forall|k: int| 0 <= k < (a + b).len() implies #[trigger] (a + b)[k] == 0 || (a
            + b)[k] == 1 by {
            if k < a.len() {
                assert((a + b)[k] == a[k]);
            } else {
                assert((a + b)[k] == b[k - a.len()]);
            }
        }
    }
}

/// The sparse and dense encodings of the same cells agree in full: one
/// succeeds exactly when the other does; then they have the same shape, the
/// same entry at every row and column, and as many stored codes as the dense
/// encoding has ones; otherwise both refuse with an error of the same kind.
pub proof fn lemma_sparse_dense_agree(
    enc: OneHotEncoder,
    g: Seq<Seq<Seq<char>>>,
    rd: Result<CodeMatrix>,
    rs: Result<SparseCodeMatrix>,
)
    requires
        is_rectangular(g),
        OneHotEncoder::transform_outcome(enc, g, rd),
        OneHotEncoder::sparse_outcome(enc, g, rs),
    ensures
        (rd is Ok) == (rs is Ok),
        rd matches Ok(dm) ==> (rs matches Ok(sm) ==> {
            &&& sm.spec_nrows() == dm@.len()
            &&& sm.spec_ncols() == dm@[0].len()
            &&& forall|i: int, j: usize|
                0 <= i < sm.spec_nrows() && j < sm.spec_ncols() ==> #[trigger] stored_entry(
                    sm.spec_row_columns(i),
                    sm.spec_row_values(i),
                    j,
                ) == dm@[i][j as int]
            &&& sm.spec_nnz() == dense_ones(dm@)
        }),
        rd matches Err(e1) ==> (rs matches Err(e2) ==> same_kind(e1, e2)),
{
    let cats = enc.spec_categories();
    let d = enc.spec_drop();
    let shape_ok = g[0].len() == cats.len();
    let known = enc.spec_handle_unknown() == HandleUnknown::Ignore || all_cells_known(cats, g);
    let width = kept_total(cats, d, cats.len() as int);
    if !enc.spec_fitted() {
        assert(rd is Err && rs is Err);
        assert(same_kind(rd->Err_0, rs->Err_0));
    } else if !shape_ok {
        assert(rd is Err && rs is Err);
        assert(same_kind(rd->Err_0, rs->Err_0));
    } else if !known {
        let (i, j) = choose|i: int, j: int|
            #[trigger] first_unknown_cell(cats, g, i, j) && is_unknown_category(
                rd,
                unknown_cell_text(j, g[i][j]),
            );
        let (a, b) = choose|i: int, j: int|
            #[trigger] first_unknown_cell(cats, g, i, j) && is_unknown_category(
                rs,
                unknown_cell_text(j, g[i][j]),
            );
        assert(rd is Err && rs is Err);
        assert(same_kind(rd->Err_0, rs->Err_0));
    } else if width == 0 {
        assert(rd is Err && rs is Err);
        assert(same_kind(rd->Err_0, rs->Err_0));
    } else {
        let dm = rd->Ok_0;
        let sm = rs->Ok_0;
        assert(rd == Ok::<CodeMatrix, DatarustError>(dm));
        assert(rs == Ok::<SparseCodeMatrix, DatarustError>(sm));
        let rows = Seq::new(g.len(), |i: int| encode_row(cats, d, g[i]));
        assert(dm@ == rows);
        lemma_encode_prefix_len(cats, d, g[0], cats.len() as int);
        assert(dm@[0].len() == width);
        assert forall|i: int, j: usize|
            0 <= i < sm.spec_nrows() && j < sm.spec_ncols() implies #[trigger] stored_entry(
            sm.spec_row_columns(i),
            sm.spec_row_values(i),
            j,
        ) == dm@[i][j as int] by {
            lemma_sparse_matches_dense(enc, g, sm, dm, i, j);
        }
        assert forall|i: int| 0 <= i < rows.len() implies binary_codes(#[trigger] rows[i]) by {
            lemma_encode_prefix_binary(cats, d, g[i], cats.len() as int);
        }
        lemma_nonzeros_are_ones(rows);
        assert(sm.spec_nnz() == dense_ones(dm@));
        assert(sm.spec_nrows() == dm@.len());
        assert(sm.spec_ncols() == dm@[0].len());
    }
}

} // verus!
