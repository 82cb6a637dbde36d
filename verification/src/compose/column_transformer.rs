//! A column transformer: named blocks of numeric or categorical columns, each
//! with its own transformer, followed by the columns no block selected.
//!
//! Numeric blocks hold a transformer of the caller's type `T`; this module
//! validates and records their column selections, while categorical blocks
//! are one-hot encoded here.

use vstd::prelude::*;
use crate::encoder::onehot::{names_prefix, OneHotEncoder};
use crate::error::{is_invalid_input, is_empty_input, is_not_fitted, DatarustError, Result};
use crate::matrix::{CodeMatrix, StrMatrix};
use crate::names::{default_input_names, default_name};
use crate::text::{decimal, texts, usize_text};

verus! {

/// What to do with columns that no block selects.
#[derive(Debug, Clone, Copy, PartialEq, Eq, Structural)]
pub enum Remainder {
    /// Leave them out (the default).
    Drop,
    /// Append them after the blocks: numeric ones as they are, categorical
    /// ones one-hot encoded, each in column order.
    Passthrough,
}

/// One block of a [`ColumnTransformer`].
#[derive(Debug)]
pub enum ColumnSpec<T> {
    /// Numeric columns fed to a transformer.
    Numeric { name: String, columns: Vec<usize>, transformer: T },
    /// Categorical columns fed to a one-hot encoder.
    Categorical { name: String, columns: Vec<usize>, encoder: OneHotEncoder },
}

impl<T> ColumnSpec<T> {
    /// The block's name.
    pub open spec fn spec_name(&self) -> Seq<char> {
        match self {
            ColumnSpec::Numeric { name, .. } => name@,
            ColumnSpec::Categorical { name, .. } => name@,
        }
    }

    /// The columns the block selects, in order.
    pub open spec fn spec_columns(&self) -> Seq<usize> {
        match self {
            ColumnSpec::Numeric { columns, .. } => columns@,
            ColumnSpec::Categorical { columns, .. } => columns@,
        }
    }
}

/// The categorical cells of a table of `nrows` rows: those of `cat`, or,
/// without `cat`, rows of no cells.
pub open spec fn cat_cells(cat: Option<&StrMatrix>, nrows: nat) -> Seq<Seq<Seq<char>>> {
    match cat {
        Some(m) => m@,
        None => Seq::new(nrows, |i: int| Seq::<Seq<char>>::empty()),
    }
}

/// The number of categorical columns of a table.
pub open spec fn cat_width(cat: Option<&StrMatrix>) -> nat {
    match cat {
        Some(m) => m@[0].len(),
        None => 0,
    }
}

/// The categorical part agrees with the table's row count.
pub open spec fn table_rows_agree(cat: Option<&StrMatrix>, nrows: nat) -> bool {
    cat matches Some(m) ==> m@.len() == nrows
}

/// Every selected column is below `max`.
pub open spec fn columns_below(cols: Seq<usize>, max: nat) -> bool {
    forall|k: int| 0 <= k < cols.len() ==> #[trigger] cols[k] < max
}

/// Position `k` holds the first selected column that is not below `max`.
pub open spec fn first_bad_column(cols: Seq<usize>, max: nat, k: int) -> bool {
    &&& 0 <= k < cols.len()
    &&& cols[k] >= max
    &&& forall|t: int| 0 <= t < k ==> #[trigger] cols[t] < max
}

/// The text of the error for a column index out of range.
pub open spec fn out_of_range_text(c: nat, max: nat) -> Seq<char> {
    "column index "@ + decimal(c) + " out of range (max "@ + decimal(max) + ")"@
}

/// `r` refuses the first selected column that is not below `max`.
pub open spec fn rejects_columns<U>(cols: Seq<usize>, max: nat, r: Result<U>) -> bool {
    exists|k: int|
        #[trigger] first_bad_column(cols, max, k) && is_invalid_input(
            r,
            out_of_range_text(cols[k] as nat, max),
        )
}

/// The cells of the selected columns, in selection order.
pub open spec fn selected_cells(g: Seq<Seq<Seq<char>>>, cols: Seq<usize>) -> Seq<Seq<Seq<char>>> {
    Seq::new(g.len(), |i: int| Seq::new(cols.len(), |k: int| g[i][cols[k] as int]))
}

/// Extracting the columns `cols` of the categorical part succeeds.
pub open spec fn extract_ok(cat: Option<&StrMatrix>, nrows: nat, cols: Seq<usize>) -> bool {
    &&& columns_below(cols, cat_width(cat))
    &&& nrows > 0
    &&& cols.len() > 0
    &&& nrows * cols.len() <= usize::MAX
}

/// The refusal that `r` carries when extracting `cols` fails.
pub open spec fn extraction_refused<U>(
    cat: Option<&StrMatrix>,
    nrows: nat,
    cols: Seq<usize>,
    r: Result<U>,
) -> bool {
    if !columns_below(cols, cat_width(cat)) {
        rejects_columns(cols, cat_width(cat), r)
    } else if nrows == 0 {
        is_empty_input(r, "matrix has no rows"@)
    } else if cols.len() == 0 {
        is_empty_input(r, "matrix has no columns"@)
    } else {
        is_invalid_input(r, "matrix too large"@)
    }
}

/// What extracting the columns `cols` of the categorical part gives.
pub open spec fn extraction(
    cat: Option<&StrMatrix>,
    nrows: nat,
    cols: Seq<usize>,
    r: Result<StrMatrix>,
) -> bool {
    if extract_ok(cat, nrows, cols) {
        r matches Ok(s) && s@ == selected_cells(cat_cells(cat, nrows), cols)
    } else {
        extraction_refused(cat, nrows, cols, r)
    }
}

/// Checks that every selected column is below `max`, refusing the first
/// that is not.
pub fn validate_columns(cols: &[usize], max: usize) -> (r: Result<()>)
    ensures
        columns_below(cols@, max as nat) ==> r is Ok,
        !columns_below(cols@, max as nat) ==> rejects_columns(cols@, max as nat, r),
{
    let n = cols.len();
    for k in 0..n
        invariant
            n == cols@.len(),
            forall|t: int| 0 <= t < k ==> #[trigger] cols@[t] < max,
    {
        let c = cols[k];
        if c >= max {
            let mut msg = "column index ".to_owned();
            let ct = usize_text(c);
            msg.append(ct.as_str());
            msg.append(" out of range (max ");
            let mt = usize_text(max);
            msg.append(mt.as_str());
            msg.append(")");
            let r: Result<()> = Err(DatarustError::InvalidInput(msg));
            assert(first_bad_column(cols@, max as nat, k as int));
            return r;
        }
    }
    Ok(())
}

/// The selected columns of the categorical part of a table of `nrows` rows,
/// as a string matrix; `cat` is absent when the table has no categorical
/// columns.
pub fn extract_categorical_cols(cat: Option<&StrMatrix>, nrows: usize, cols: &[usize]) -> (r:
    Result<StrMatrix>)
    requires
        table_rows_agree(cat, nrows as nat),
    ensures
        extraction(cat, nrows as nat, cols@, r),
{
    let width: usize = match cat {
        Some(m) => m.ncols(),
        None => 0,
    };
    match validate_columns(cols, width) {
        Err(e) => return Err(e),
        Ok(()) => {},
    }
    let ghost g = cat_cells(cat, nrows as nat);
    let n = cols.len();
    let mut data: Vec<Vec<String>> = Vec::new();
    for i in 0..nrows
        invariant
            n == cols@.len(),
            table_rows_agree(cat, nrows as nat),
            g == cat_cells(cat, nrows as nat),
            columns_below(cols@, cat_width(cat)),
            width == cat_width(cat),
            data@.len() == i,
            forall|a: int|
                0 <= a < i ==> texts(#[trigger] data@[a]@) == Seq::new(
                    cols@.len(),
                    |k: int| g[a][cols@[k] as int],
                ),
    {
        let mut row: Vec<String> = Vec::new();
        for k in 0..n
            invariant
                n == cols@.len(),
                i < nrows,
                table_rows_agree(cat, nrows as nat),
                g == cat_cells(cat, nrows as nat),
                columns_below(cols@, cat_width(cat)),
                width == cat_width(cat),
                row@.len() == k,
                forall|t: int| 0 <= t < k ==> (#[trigger] row@[t])@ == g[i as int][cols@[t] as int],
        {
            let c = cols[k];
            assert(c < width);
            match cat {
                Some(m) => {
                    row.push(m.get(i, c).to_owned());
                },
                None => {},
            }
        }
        assert(texts(row@) =~= Seq::new(cols@.len(), |k: int| g[i as int][cols@[k] as int]));
        data.push(row);
    }
    let ghost sel = selected_cells(g, cols@);
    assert(Seq::new(data@.len(), |a: int| texts(data@[a]@)) =~= sel);
    StrMatrix::new(data)
}

/// Strictly increasing.
pub open spec fn increasing(s: Seq<usize>) -> bool {
    forall|a: int, b: int| 0 <= a < b < s.len() ==> s[a] < s[b]
}

/// The columns selected by the numeric blocks, block after block.
pub open spec fn numeric_columns<T>(specs: Seq<ColumnSpec<T>>) -> Seq<usize>
    decreases specs.len(),
{
    if specs.len() == 0 {
        Seq::<usize>::empty()
    } else {
        numeric_columns(specs.drop_last()) + if specs.last() is Numeric {
            specs.last().spec_columns()
        } else {
            Seq::<usize>::empty()
        }
    }
}

/// The columns selected by the categorical blocks, block after block.
pub open spec fn categorical_columns<T>(specs: Seq<ColumnSpec<T>>) -> Seq<usize>
    decreases specs.len(),
{
    if specs.len() == 0 {
        Seq::<usize>::empty()
    } else {
        categorical_columns(specs.drop_last()) + if specs.last() is Categorical {
            specs.last().spec_columns()
        } else {
            Seq::<usize>::empty()
        }
    }
}

/// The columns below `n` that `used` does not hold, in order.
pub open spec fn unused_columns(n: nat, used: Seq<usize>) -> Seq<usize>
    decreases n,
{
    if n == 0 {
        Seq::<usize>::empty()
    } else {
        unused_columns((n - 1) as nat, used) + if used.contains((n - 1) as usize) {
            Seq::<usize>::empty()
        } else {
            seq![(n - 1) as usize]
        }
    }
}

/// `s` holds, in increasing order and once each, the values that `items`
/// holds.
pub open spec fn sorted_set_of(s: Seq<usize>, items: Seq<usize>) -> bool {
    &&& increasing(s)
    &&& forall|c: usize| s.contains(c) <==> items.contains(c)
}

/// The distinct values of `items` in increasing order.
fn sorted_unique_indices(items: &Vec<usize>) -> (r: Vec<usize>)
    ensures
        sorted_set_of(r@, items@),
{
    let n = items.len();
    let mut out: Vec<usize> = Vec::new();
    for t in 0..n
        invariant
            n == items@.len(),
            increasing(out@),
            forall|c: usize| out@.contains(c) <==> items@.take(t as int).contains(c),
    {
        let x = items[t];
        let ghost before = out@;
        let ghost prefix = items@.take(t as int);
        assert(items@.take(t + 1) =~= prefix.push(x));
        let m = out.len();
        let mut p: usize = 0;
        while p < m && out[p] < x
            invariant
                m == out@.len(),
                p <= m,
                forall|a: int| 0 <= a < p ==> #[trigger] out@[a] < x,
            decreases m - p,
        {
            p = p + 1;
        }
        if p < m && out[p] == x {
            assert forall|c: usize| out@.contains(c) <==> items@.take(t + 1).contains(c) by {
                if c == x {
                    assert(out@[p as int] == x);
                }
                if items@.take(t + 1).contains(c) && c != x {
                    let w = choose|w: int| 0 <= w < prefix.push(x).len() && prefix.push(x)[w] == c;
                    assert(prefix[w] == c);
                    assert(prefix.contains(c));
                }
            }
        } else {
            out.insert(p, x);
            assert(out@ == before.insert(p as int, x));
            assert forall|a: int, b: int| 0 <= a < b < out@.len() implies out@[a] < out@[b] by {
                if p < m {
                    assert(before[p as int] > x);
                }
                if a < p && b > p {
                    assert(before[a] < before[b - 1]);
                }
            }
            assert forall|c: usize| out@.contains(c) <==> items@.take(t + 1).contains(c) by {
                if out@.contains(c) {
                    let w = choose|w: int| 0 <= w < out@.len() && out@[w] == c;
                    if w < p {
                        assert(before[w] == c);
                        assert(before.contains(c));
                    } else if w > p {
                        assert(before[w - 1] == c);
                        assert(before.contains(c));
                    }
                    if c != x {
                        assert(prefix.contains(c));
                        let u = choose|u: int| 0 <= u < prefix.len() && prefix[u] == c;
                        assert(prefix.push(x)[u] == c);
                    } else {
                        assert(prefix.push(x)[prefix.len() as int] == x);
                    }
                }
                if items@.take(t + 1).contains(c) {
                    if c == x {
                        assert(out@[p as int] == x);
                    } else {
                        let w = choose|w: int| 0 <= w < prefix.push(x).len() && prefix.push(x)[w] == c;
                        assert(prefix[w] == c);
                        assert(prefix.contains(c));
                        assert(before.contains(c));
                        let u = choose|u: int| 0 <= u < before.len() && before[u] == c;
                        if u < p {
                            assert(out@[u] == c);
                        } else {
                            assert(out@[u + 1] == c);
                        }
                    }
                }
            }
        }
    }
    assert(items@.take(n as int) =~= items@);
    out
}

/// The columns that `specs` select, one after another, in block order.
fn concat_columns<T>(specs: &Vec<ColumnSpec<T>>, numeric: bool) -> (r: Vec<usize>)
    ensures
        numeric ==> r@ == numeric_columns(specs@),
        !numeric ==> r@ == categorical_columns(specs@),
{
    let n = specs.len();
    let mut out: Vec<usize> = Vec::new();
    for b in 0..n
        invariant
            n == specs@.len(),
            numeric ==> out@ == numeric_columns(specs@.take(b as int)),
            !numeric ==> out@ == categorical_columns(specs@.take(b as int)),
    {
        assert(specs@.take(b + 1).drop_last() =~= specs@.take(b as int));
        let cols: &Vec<usize> = match &specs[b] {
            ColumnSpec::Numeric { columns, .. } => columns,
            ColumnSpec::Categorical { columns, .. } => columns,
        };
        let wanted = match &specs[b] {
            ColumnSpec::Numeric { .. } => numeric,
            ColumnSpec::Categorical { .. } => !numeric,
        };
        if wanted {
            let m = cols.len();
            let ghost start = out@;
            for k in 0..m
                invariant
                    m == cols@.len(),
                    out@ == start + cols@.take(k as int),
            {
                out.push(cols[k]);
                assert(start + cols@.take(k + 1) =~= (start + cols@.take(k as int)).push(cols@[k as int]));
            }
            assert(cols@.take(m as int) =~= cols@);
        } else {
            assert(out@ =~= out@ + Seq::<usize>::empty());
        }
    }
    assert(specs@.take(n as int) =~= specs@);
    out
}

/// The columns below `n` that `used` does not hold, in increasing order.
fn unused_below(n: usize, used: &Vec<usize>) -> (r: Vec<usize>)
    ensures
        r@ == unused_columns(n as nat, used@),
{
    let mut out: Vec<usize> = Vec::new();
    let m = used.len();
    for c in 0..n
        invariant
            m == used@.len(),
            out@ == unused_columns(c as nat, used@),
    {
        let mut found = false;
        for k in 0..m
            invariant
                m == used@.len(),
                found <==> exists|t: int| 0 <= t < k && used@[t] == c,
        {
            if used[k] == c {
                found = true;
            }
        }
        proof {
            if found {
                let t = choose|t: int| 0 <= t < m && used@[t] == c;
                assert(used@.contains(c));
            } else {
                assert(!used@.contains(c));
            }
        }
        if !found {
            out.push(c);
        }
        assert(unused_columns((c + 1) as nat, used@) == unused_columns(c as nat, used@) + if used@.contains(c) {
            Seq::<usize>::empty()
        } else {
            seq![c]
        });
        proof {
            if found {
                assert(out@ =~= out@ + Seq::<usize>::empty());
            }
        }
    }
    out
}

/// Applies a transformer of type `T` to some numeric columns and one-hot
/// encoders to some categorical columns of a table, and concatenates the
/// results: each block in insertion order, then (with `Passthrough`) the
/// unselected numeric columns and the unselected categorical columns one-hot
/// encoded.
#[derive(Debug)]
pub struct ColumnTransformer<T> {
    specs: Vec<ColumnSpec<T>>,
    remainder: Remainder,
    consumed_numeric: Vec<usize>,
    total_numeric_cols: usize,
    consumed_categorical: Vec<usize>,
    total_categorical_cols: usize,
    remainder_cat: Vec<(usize, OneHotEncoder)>,
    fitted: bool,
}

impl<T> ColumnTransformer<T> {
    /// The blocks, in insertion order.
    pub closed spec fn spec_specs(&self) -> Seq<ColumnSpec<T>> {
        self.specs@
    }

    /// The remainder policy.
    pub closed spec fn spec_remainder(&self) -> Remainder {
        self.remainder
    }

    /// The numeric columns the blocks selected at fit time, increasing.
    pub closed spec fn spec_consumed_numeric(&self) -> Seq<usize> {
        self.consumed_numeric@
    }

    /// The number of numeric columns seen at fit time.
    pub closed spec fn spec_total_numeric(&self) -> nat {
        self.total_numeric_cols as nat
    }

    /// The categorical columns the blocks selected at fit time, increasing.
    pub closed spec fn spec_consumed_categorical(&self) -> Seq<usize> {
        self.consumed_categorical@
    }

    /// The number of categorical columns seen at fit time.
    pub closed spec fn spec_total_categorical(&self) -> nat {
        self.total_categorical_cols as nat
    }

    /// The unselected categorical columns passed through, increasing.
    pub closed spec fn spec_remainder_cat_cols(&self) -> Seq<usize> {
        Seq::new(self.remainder_cat@.len(), |k: int| self.remainder_cat@[k].0)
    }

    /// The encoders of the passed-through categorical columns.
    pub closed spec fn spec_remainder_cat_encoders(&self) -> Seq<OneHotEncoder> {
        Seq::new(self.remainder_cat@.len(), |k: int| self.remainder_cat@[k].1)
    }

    /// Whether fitting has completed.
    pub closed spec fn spec_fitted(&self) -> bool {
        self.fitted
    }

    /// The transformer's state before any fit: nothing consumed, nothing
    /// passed through.
    pub open spec fn unfitted_state(&self) -> bool {
        &&& !self.spec_fitted()
        &&& self.spec_consumed_numeric().len() == 0
        &&& self.spec_consumed_categorical().len() == 0
        &&& self.spec_total_numeric() == 0
        &&& self.spec_total_categorical() == 0
        &&& self.spec_remainder_cat_cols().len() == 0
        &&& self.spec_remainder_cat_encoders().len() == 0
    }

    /// The state recorded by fitting is the same in both.
    pub open spec fn same_fitted_data(&self, other: &Self) -> bool {
        &&& self.spec_fitted() == other.spec_fitted()
        &&& self.spec_consumed_numeric() == other.spec_consumed_numeric()
        &&& self.spec_consumed_categorical() == other.spec_consumed_categorical()
        &&& self.spec_total_numeric() == other.spec_total_numeric()
        &&& self.spec_total_categorical() == other.spec_total_categorical()
        &&& self.spec_remainder_cat_cols() == other.spec_remainder_cat_cols()
        &&& self.spec_remainder_cat_encoders() == other.spec_remainder_cat_encoders()
    }

    /// A transformer with no blocks that drops unselected columns.
    pub fn new() -> (r: Self)
        ensures
            r.spec_specs().len() == 0,
            r.spec_remainder() == Remainder::Drop,
            r.unfitted_state(),
    {
        ColumnTransformer {
            specs: Vec::new(),
            remainder: Remainder::Drop,
            consumed_numeric: Vec::new(),
            total_numeric_cols: 0,
            consumed_categorical: Vec::new(),
            total_categorical_cols: 0,
            remainder_cat: Vec::new(),
            fitted: false,
        }
    }

    /// Sets the remainder policy.
    pub fn remainder(self, r: Remainder) -> (out: Self)
        ensures
            out.spec_remainder() == r,
            out.spec_specs() == self.spec_specs(),
            out.same_fitted_data(&self),
    {
        let mut out = self;
        out.remainder = r;
        out
    }

    /// Adds a block of numeric columns with its transformer.
    pub fn add_numeric(self, name: &str, columns: Vec<usize>, transformer: T) -> (out: Self)
        ensures
            out.spec_specs().len() == self.spec_specs().len() + 1,
            out.spec_specs().drop_last() == self.spec_specs(),
            out.spec_specs().last().spec_name() == name@,
            out.spec_specs().last().spec_columns() == columns@,
            out.spec_specs().last() is Numeric,
            out.spec_specs().last()->transformer == transformer,
            out.spec_remainder() == self.spec_remainder(),
            out.same_fitted_data(&self),
    {
        let mut out = self;
        let ghost before = out.specs@;
        out.specs.push(ColumnSpec::Numeric { name: name.to_owned(), columns, transformer });
        assert(out.specs@.drop_last() =~= before);
        out
    }

    /// Adds a block of categorical columns with its one-hot encoder.
    pub fn add_categorical(self, name: &str, columns: Vec<usize>, encoder: OneHotEncoder) -> (out:
        Self)
        ensures
            out.spec_specs().len() == self.spec_specs().len() + 1,
            out.spec_specs().drop_last() == self.spec_specs(),
            out.spec_specs().last().spec_name() == name@,
            out.spec_specs().last().spec_columns() == columns@,
            out.spec_specs().last() is Categorical,
            out.spec_specs().last()->encoder == encoder,
            out.spec_remainder() == self.spec_remainder(),
            out.same_fitted_data(&self),
    {
        let mut out = self;
        let ghost before = out.specs@;
        out.specs.push(ColumnSpec::Categorical { name: name.to_owned(), columns, encoder });
        assert(out.specs@.drop_last() =~= before);
        out
    }

    /// The remainder policy.
    pub fn remainder_policy(&self) -> (r: Remainder)
        ensures
            r == self.spec_remainder(),
    {
        self.remainder
    }

    /// The number of passed-through categorical columns.
    pub fn remainder_categorical_count(&self) -> (r: usize)
        ensures
            r == self.spec_remainder_cat_cols().len(),
    {
        self.remainder_cat.len()
    }

    /// Whether fitting has completed.
    pub fn is_fitted(&self) -> (r: bool)
        ensures
            r == self.spec_fitted(),
    {
        self.fitted
    }

    /// The blocks, in insertion order.
    pub fn specs(&self) -> (r: &[ColumnSpec<T>])
        ensures
            r@ == self.spec_specs(),
    {
        self.specs.as_slice()
    }

    /// Mutable access to the transformer of block `i`, when it is numeric.
    pub fn numeric_transformer_mut(&mut self, i: usize) -> (r: Option<&mut T>)
        ensures
            i < old(self).spec_specs().len() && old(self).spec_specs()[i as int] is Numeric ==> (r matches Some(t)
                && *t == old(self).spec_specs()[i as int]->transformer
                && final(self).spec_specs().len() == old(self).spec_specs().len()
                && (forall|j: int| 0 <= j < old(self).spec_specs().len() && j != i ==> #[trigger] final(self).spec_specs()[j] == old(self).spec_specs()[j])
                && final(self).spec_specs()[i as int] is Numeric
                && final(self).spec_specs()[i as int].spec_name() == old(self).spec_specs()[i as int].spec_name()
                && final(self).spec_specs()[i as int].spec_columns() == old(self).spec_specs()[i as int].spec_columns()
                && final(self).spec_specs()[i as int]->transformer == *final(t)),
            !(i < old(self).spec_specs().len() && old(self).spec_specs()[i as int] is Numeric) ==> r is None,
            final(self).spec_remainder() == old(self).spec_remainder(),
            final(self).spec_fitted() == old(self).spec_fitted(),
            final(self).spec_consumed_numeric() == old(self).spec_consumed_numeric(),
            final(self).spec_consumed_categorical() == old(self).spec_consumed_categorical(),
            final(self).spec_total_numeric() == old(self).spec_total_numeric(),
            final(self).spec_total_categorical() == old(self).spec_total_categorical(),
            final(self).spec_remainder_cat_cols() == old(self).spec_remainder_cat_cols(),
            final(self).spec_remainder_cat_encoders() == old(self).spec_remainder_cat_encoders(),
    {
        if i >= self.specs.len() {
            return None;
        }
        match &mut self.specs[i] {
            ColumnSpec::Numeric { transformer, .. } => Some(transformer),
            ColumnSpec::Categorical { .. } => None,
        }
    }
}

/// The columns of `unused_columns(n, used)` are the columns below `n` that
/// `used` does not hold, each once, in increasing order.
pub proof fn lemma_unused_columns(n: nat, used: Seq<usize>)
    requires
        n <= usize::MAX,
    ensures
        increasing(unused_columns(n, used)),
        forall|k: int|
            0 <= k < unused_columns(n, used).len() ==> #[trigger] unused_columns(n, used)[k] < n,
        forall|c: usize|
            #[trigger] unused_columns(n, used).contains(c) <==> (c < n && !used.contains(c)),
    decreases n,
{
    if n > 0 {
        let m = (n - 1) as nat;
        lemma_unused_columns(m, used);
        let prev = unused_columns(m, used);
        let cur = unused_columns(n, used);
        if used.contains(m as usize) {
            assert(cur =~= prev);
        } else {
            assert(cur =~= prev.push(m as usize));
            assert forall|c: usize| cur.contains(c) <==> (c < n && !used.contains(c)) by {
                if c == m {
                    assert(cur[prev.len() as int] == c);
                }
                if cur.contains(c) && c != m {
                    let w = choose|w: int| 0 <= w < cur.len() && cur[w] == c;
                    assert(prev[w] == c);
                    assert(prev.contains(c));
                }
                if c < m && !used.contains(c) {
                    assert(prev.contains(c));
                    let w = choose|w: int| 0 <= w < prev.len() && prev[w] == c;
                    assert(cur[w] == c);
                }
            }
        }
    }
}

/// `unused_columns` depends only on which columns `used` holds.
pub proof fn lemma_unused_columns_same_members(n: nat, a: Seq<usize>, b: Seq<usize>)
    requires
        forall|c: usize| a.contains(c) <==> b.contains(c),
    ensures
        unused_columns(n, a) == unused_columns(n, b),
    decreases n,
{
    if n > 0 {
        lemma_unused_columns_same_members((n - 1) as nat, a, b);
        assert(a.contains((n - 1) as usize) == b.contains((n - 1) as usize));
    }
}

/// Encoder settings of a fresh `OneHotEncoder::new()`.
pub open spec fn default_settings(e: OneHotEncoder) -> bool {
    &&& e.spec_drop() == crate::encoder::onehot::DropStrategy::KeepAll
    &&& e.spec_handle_unknown() == crate::encoder::onehot::HandleUnknown::Error
    &&& !e.spec_sparse()
}

impl<T> ColumnTransformer<T> {
    /// The fit-time state other than the blocks is the same in both.
    pub open spec fn same_fit_state(&self, other: &Self) -> bool {
        &&& self.spec_remainder() == other.spec_remainder()
        &&& self.spec_fitted() == other.spec_fitted()
        &&& self.spec_consumed_numeric() == other.spec_consumed_numeric()
        &&& self.spec_consumed_categorical() == other.spec_consumed_categorical()
        &&& self.spec_total_numeric() == other.spec_total_numeric()
        &&& self.spec_total_categorical() == other.spec_total_categorical()
        &&& self.spec_remainder_cat_cols() == other.spec_remainder_cat_cols()
        &&& self.spec_remainder_cat_encoders() == other.spec_remainder_cat_encoders()
    }

    /// The first check of fitting: there must be at least one block.
    pub fn fit_start(&self) -> (r: Result<()>)
        ensures
            self.spec_specs().len() > 0 ==> r is Ok,
            self.spec_specs().len() == 0 ==> is_invalid_input(r, "no column specs"@),
    {
        if self.specs.len() == 0 {
            return Err(DatarustError::InvalidInput("no column specs".to_owned()));
        }
        Ok(())
    }

    /// Fits block `i` on a table with `n_numeric` numeric columns and the
    /// categorical part `cat` of `nrows` rows. A numeric block's columns are
    /// checked against `n_numeric` (its transformer is then fitted by the
    /// caller on those columns); a categorical block's columns are extracted
    /// and its encoder fitted on them.
    pub fn fit_spec(&mut self, i: usize, n_numeric: usize, cat: Option<&StrMatrix>, nrows: usize) -> (r:
        Result<()>)
        requires
            i < old(self).spec_specs().len(),
            table_rows_agree(cat, nrows as nat),
        ensures
            ({
                let s = old(self).spec_specs()[i as int];
                let cols = s.spec_columns();
                if s is Numeric {
                    &&& columns_below(cols, n_numeric as nat) ==> r is Ok
                    &&& !columns_below(cols, n_numeric as nat) ==> rejects_columns(
                        cols,
                        n_numeric as nat,
                        r,
                    )
                    &&& *final(self) == *old(self)
                } else if !extract_ok(cat, nrows as nat, cols) {
                    &&& extraction_refused(cat, nrows as nat, cols, r)
                    &&& *final(self) == *old(self)
                } else {
                    let t = final(self).spec_specs()[i as int];
                    &&& r is Ok
                    &&& final(self).spec_specs().len() == old(self).spec_specs().len()
                    &&& forall|j: int|
                        0 <= j < old(self).spec_specs().len() && j != i ==> #[trigger] final(self).spec_specs()[j] == old(self).spec_specs()[j]
                    &&& t is Categorical
                    &&& t.spec_name() == s.spec_name()
                    &&& t.spec_columns() == cols
                    &&& OneHotEncoder::fitted_on(
                        s->encoder,
                        t->encoder,
                        selected_cells(cat_cells(cat, nrows as nat), cols),
                    )
                    &&& final(self).same_fit_state(old(self))
                }
            }),
    {
        let sub = match &self.specs[i] {
            ColumnSpec::Numeric { columns, .. } => {
                return validate_columns(columns.as_slice(), n_numeric);
            },
            ColumnSpec::Categorical { columns, .. } => extract_categorical_cols(
                cat,
                nrows,
                columns.as_slice(),
            ),
        };
        let m = match sub {
            Ok(m) => m,
            Err(e) => {
                let r: Result<()> = Err(e);
                proof {
                    let cols = self.specs@[i as int].spec_columns();
                    if !columns_below(cols, cat_width(cat)) {
                        let k = choose|k: int|
                            #[trigger] first_bad_column(cols, cat_width(cat), k) && is_invalid_input(
                                sub,
                                out_of_range_text(cols[k] as nat, cat_width(cat)),
                            );
                        assert(first_bad_column(cols, cat_width(cat), k));
                    }
                }
                return r;
            },
        };
        let ghost before = self.specs@;
        match &mut self.specs[i] {
            ColumnSpec::Categorical { encoder, .. } => {
                let _ = encoder.fit(&m);
            },
            ColumnSpec::Numeric { .. } => {},
        }
        Ok(())
    }

    /// Completes fitting on a table with `n_numeric` numeric columns and the
    /// categorical part `cat` of `nrows` rows: records the columns the blocks
    /// selected and the table's widths and, with `Passthrough`, fits a fresh
    /// one-hot encoder on each categorical column that no block selected.
    pub fn fit_finish(&mut self, n_numeric: usize, cat: Option<&StrMatrix>, nrows: usize)
        requires
            table_rows_agree(cat, nrows as nat),
        ensures
            final(self).spec_specs() == old(self).spec_specs(),
            final(self).spec_remainder() == old(self).spec_remainder(),
            final(self).spec_fitted(),
            sorted_set_of(
                final(self).spec_consumed_numeric(),
                numeric_columns(old(self).spec_specs()),
            ),
            sorted_set_of(
                final(self).spec_consumed_categorical(),
                categorical_columns(old(self).spec_specs()),
            ),
            final(self).spec_total_numeric() == n_numeric,
            final(self).spec_total_categorical() == cat_width(cat),
            final(self).spec_remainder_cat_encoders().len()
                == final(self).spec_remainder_cat_cols().len(),
            old(self).spec_remainder() == Remainder::Drop ==> final(self).spec_remainder_cat_cols().len() == 0,
            old(self).spec_remainder() == Remainder::Passthrough ==> final(self).spec_remainder_cat_cols() == unused_columns(
                cat_width(cat),
                categorical_columns(old(self).spec_specs()),
            ),
            forall|k: int|
                0 <= k < final(self).spec_remainder_cat_cols().len() ==> default_settings(
                    #[trigger] final(self).spec_remainder_cat_encoders()[k],
                ) && OneHotEncoder::learned_from(
                    final(self).spec_remainder_cat_encoders()[k],
                    selected_cells(
                        cat_cells(cat, nrows as nat),
                        seq![final(self).spec_remainder_cat_cols()[k]],
                    ),
                ),
    {
        let num = concat_columns(&self.specs, true);
        let consumed_num = sorted_unique_indices(&num);
        let catc = concat_columns(&self.specs, false);
        let consumed_cat = sorted_unique_indices(&catc);
        let width: usize = match cat {
            Some(m) => m.ncols(),
            None => 0,
        };
        let mut rem: Vec<(usize, OneHotEncoder)> = Vec::new();
        if self.remainder == Remainder::Passthrough {
            let unused = unused_below(width, &consumed_cat);
            proof {
                lemma_unused_columns(width as nat, consumed_cat@);
                lemma_unused_columns_same_members(width as nat, consumed_cat@, catc@);
            }
            let n = unused.len();
            for k in 0..n
                invariant
                    n == unused@.len(),
                    unused@ == unused_columns(width as nat, consumed_cat@),
                    forall|t: int| 0 <= t < n ==> #[trigger] unused@[t] < width,
                    width == cat_width(cat),
                    table_rows_agree(cat, nrows as nat),
                    rem@.len() == k,
                    forall|t: int|
                        0 <= t < k ==> (#[trigger] rem@[t]).0 == unused@[t] && default_settings(
                            rem@[t].1,
                        ) && OneHotEncoder::learned_from(
                            rem@[t].1,
                            selected_cells(cat_cells(cat, nrows as nat), seq![unused@[t]]),
                        ),
            {
                let c = unused[k];
                let mut one: Vec<usize> = Vec::new();
                one.push(c);
                match cat {
                    Some(mm) => {
                        proof {
                            use_type_invariant(mm);
                        }
                    },
                    None => {},
                }
                assert(one@ =~= seq![c]);
                let sub = extract_categorical_cols(cat, nrows, one.as_slice());
                assert(extract_ok(cat, nrows as nat, one@));
                let mut enc = OneHotEncoder::new();
                match sub {
                    Ok(m) => {
                        let _ = enc.fit(&m);
                        rem.push((c, enc));
                    },
                    Err(_) => {},
                }
            }
        }
        self.consumed_numeric = consumed_num;
        self.total_numeric_cols = n_numeric;
        self.consumed_categorical = consumed_cat;
        self.total_categorical_cols = width;
        self.remainder_cat = rem;
        self.fitted = true;
        assert(self.spec_remainder_cat_cols() =~= Seq::new(rem@.len(), |k: int| rem@[k].0));
    }
}

/// The parts laid end to end.
pub open spec fn joined<A>(parts: Seq<Seq<A>>) -> Seq<A>
    decreases parts.len(),
{
    if parts.len() == 0 {
        Seq::<A>::empty()
    } else {
        joined(parts.drop_last()) + parts.last()
    }
}

/// The sum of the widths.
pub open spec fn total_width(ws: Seq<usize>) -> nat
    decreases ws.len(),
{
    if ws.len() == 0 {
        0
    } else {
        total_width(ws.drop_last()) + ws.last() as nat
    }
}

/// Row `i` of each block, laid end to end.
pub open spec fn joined_row<V>(blocks: Seq<Vec<Vec<V>>>, i: int) -> Seq<V> {
    joined(Seq::new(blocks.len(), |b: int| blocks[b]@[i]@))
}

/// Every block has `nrows` rows of its width.
pub open spec fn blocks_shaped<V>(blocks: Seq<Vec<Vec<V>>>, widths: Seq<usize>, nrows: nat) -> bool {
    &&& blocks.len() == widths.len()
    &&& forall|b: int| 0 <= b < blocks.len() ==> (#[trigger] blocks[b])@.len() == nrows
    &&& forall|b: int, i: int|
        0 <= b < blocks.len() && 0 <= i < nrows ==> (#[trigger] blocks[b]@[i])@.len() == widths[b]
}

proof fn lemma_joined_len<V>(blocks: Seq<Vec<Vec<V>>>, widths: Seq<usize>, nrows: nat, i: int, m: int)
    requires
        blocks_shaped(blocks, widths, nrows),
        0 <= i < nrows,
        0 <= m <= blocks.len(),
    ensures
        joined(Seq::new(m as nat, |b: int| blocks[b]@[i]@)).len() == total_width(widths.take(m)),
    decreases m,
{
    if m > 0 {
        lemma_joined_len(blocks, widths, nrows, i, m - 1);
        assert(Seq::new(m as nat, |b: int| blocks[b]@[i]@).drop_last() =~= Seq::new(
            (m - 1) as nat,
            |b: int| blocks[b]@[i]@,
        ));
        assert(widths.take(m).drop_last() =~= widths.take(m - 1));
        assert(blocks[m - 1]@[i]@.len() == widths[m - 1]);
    }
}

/// Lays the blocks side by side: row `i` of the result is row `i` of each
/// block in turn. Refused when the blocks have no columns at all.
pub fn concat_blocks<V: Copy>(blocks: &Vec<Vec<Vec<V>>>, widths: &Vec<usize>, nrows: usize) -> (r:
    Result<Vec<Vec<V>>>)
    requires
        blocks_shaped(blocks@, widths@, nrows as nat),
        total_width(widths@) <= usize::MAX,
    ensures
        total_width(widths@) == 0 ==> is_invalid_input(r, "transform produced zero columns"@),
        total_width(widths@) > 0 ==> (r matches Ok(rows) && rows@.len() == nrows && forall|i: int|
            0 <= i < nrows ==> (#[trigger] rows@[i])@ == joined_row(blocks@, i) && rows@[i]@.len()
                == total_width(widths@)),
{
    let nb = blocks.len();
    let mut total: usize = 0;
    for b in 0..nb
        invariant
            nb == blocks@.len(),
            nb == widths@.len(),
            total == total_width(widths@.take(b as int)),
            total_width(widths@) <= usize::MAX,
    {
        proof {
            lemma_total_width_prefix(widths@, (b + 1) as int);
            assert(widths@.take(b + 1).drop_last() =~= widths@.take(b as int));
        }
        total = total + widths[b];
    }
    assert(widths@.take(nb as int) =~= widths@);
    if total == 0 {
        return Err(DatarustError::InvalidInput("transform produced zero columns".to_owned()));
    }
    let mut rows: Vec<Vec<V>> = Vec::new();
    for i in 0..nrows
        invariant
            nb == blocks@.len(),
            blocks_shaped(blocks@, widths@, nrows as nat),
            rows@.len() == i,
            forall|a: int| 0 <= a < i ==> (#[trigger] rows@[a])@ == joined_row(blocks@, a),
    {
        let mut row: Vec<V> = Vec::new();
        for b in 0..nb
            invariant
                nb == blocks@.len(),
                i < nrows,
                blocks_shaped(blocks@, widths@, nrows as nat),
                row@ == joined(Seq::new(b as nat, |c: int| blocks@[c]@[i as int]@)),
        {
            let part = &blocks[b][i];
            let w = part.len();
            let ghost start = row@;
            for k in 0..w
                invariant
                    w == part@.len(),
                    row@ == start + part@.take(k as int),
            {
                row.push(part[k]);
                assert(start + part@.take(k + 1) =~= (start + part@.take(k as int)).push(part@[k as int]));
            }
            assert(part@.take(w as int) =~= part@);
            assert(Seq::new((b + 1) as nat, |c: int| blocks@[c]@[i as int]@).drop_last() =~= Seq::new(
                b as nat,
                |c: int| blocks@[c]@[i as int]@,
            ));
        }
        rows.push(row);
    }
    assert forall|i: int| 0 <= i < nrows implies (#[trigger] rows@[i])@.len() == total_width(
        widths@,
    ) by {
        lemma_joined_len(blocks@, widths@, nrows as nat, i, nb as int);
        assert(Seq::new(nb as nat, |b: int| blocks@[b]@[i]@) =~= Seq::new(
            blocks@.len(),
            |b: int| blocks@[b]@[i]@,
        ));
    }
    Ok(rows)
}

proof fn lemma_total_width_prefix(ws: Seq<usize>, m: int)
    requires
        0 <= m <= ws.len(),
    ensures
        total_width(ws.take(m)) <= total_width(ws),
    decreases ws.len() - m,
{
    if m < ws.len() {
        lemma_total_width_prefix(ws, m + 1);
        assert(ws.take(m + 1).drop_last() =~= ws.take(m));
    } else {
        assert(ws.take(m) =~= ws);
    }
}

/// The name of categorical column `c`: its given name, or `cat` and its
/// index.
pub open spec fn cat_name(names: Seq<Seq<char>>, c: usize) -> Seq<char> {
    if c < names.len() {
        names[c as int]
    } else {
        "cat"@ + decimal(c as nat)
    }
}

/// The output names of one block.
pub open spec fn block_names<T>(s: ColumnSpec<T>, names: Seq<Seq<char>>) -> Seq<Seq<char>> {
    match s {
        ColumnSpec::Numeric { columns, .. } => Seq::new(
            columns@.len(),
            |k: int| names[columns@[k] as int],
        ),
        ColumnSpec::Categorical { columns, encoder, .. } => names_prefix(
            encoder.spec_categories(),
            encoder.spec_drop(),
            Some(Seq::new(columns@.len(), |k: int| cat_name(names, columns@[k]))),
            encoder.spec_categories().len() as int,
        ),
    }
}

/// The output names of a passed-through categorical column.
pub open spec fn passthrough_cat_names(e: OneHotEncoder, names: Seq<Seq<char>>, c: usize) -> Seq<
    Seq<char>,
> {
    names_prefix(
        e.spec_categories(),
        e.spec_drop(),
        Some(seq![cat_name(names, c)]),
        e.spec_categories().len() as int,
    )
}

impl<T> ColumnTransformer<T> {
    /// The names of the input features: the given ones, or the defaults
    /// `x0, x1, ...` for the wider part of the fitted table.
    pub open spec fn input_names(&self, input: Option<Seq<Seq<char>>>) -> Seq<Seq<char>> {
        match input {
            Some(ns) => ns,
            None => Seq::new(
                if self.spec_total_numeric() >= self.spec_total_categorical() {
                    self.spec_total_numeric()
                } else {
                    self.spec_total_categorical()
                },
                |j: int| default_name(j as nat),
            ),
        }
    }

    /// The output feature names for the input names `names`.
    pub open spec fn output_names(&self, names: Seq<Seq<char>>) -> Seq<Seq<char>> {
        let specs = self.spec_specs();
        let blocks = joined(Seq::new(specs.len(), |b: int| block_names(specs[b], names)));
        if self.spec_remainder() == Remainder::Passthrough {
            let unused = unused_columns(self.spec_total_numeric(), self.spec_consumed_numeric());
            let cols = self.spec_remainder_cat_cols();
            let encs = self.spec_remainder_cat_encoders();
            blocks + Seq::new(unused.len(), |k: int| names[unused[k] as int]) + joined(
                Seq::new(cols.len(), |k: int| passthrough_cat_names(encs[k], names, cols[k])),
            )
        } else {
            blocks
        }
    }

    /// The names are long enough for every column that naming reads.
    pub open spec fn names_cover(&self, names: Seq<Seq<char>>) -> bool {
        &&& forall|b: int, k: int|
            0 <= b < self.spec_specs().len() && self.spec_specs()[b] is Numeric && 0 <= k
                < self.spec_specs()[b].spec_columns().len() ==> #[trigger] self.spec_specs()[b].spec_columns()[k]
                < names.len()
        &&& self.spec_remainder() == Remainder::Passthrough ==> self.spec_total_numeric()
            <= names.len()
    }

    /// Refuses a transformer that has not been fitted.
    pub fn transform_start(&self) -> (r: Result<()>)
        ensures
            self.spec_fitted() ==> r is Ok,
            !self.spec_fitted() ==> is_not_fitted(r, "ColumnTransformer"@),
    {
        if !self.fitted {
            return Err(DatarustError::NotFitted("ColumnTransformer".to_owned()));
        }
        Ok(())
    }

    /// Encodes the columns of categorical block `i` of the categorical part
    /// `cat` of a table of `nrows` rows.
    pub fn transform_categorical_spec(&self, i: usize, cat: Option<&StrMatrix>, nrows: usize) -> (r:
        Result<CodeMatrix>)
        requires
            i < self.spec_specs().len(),
            self.spec_specs()[i as int] is Categorical,
            table_rows_agree(cat, nrows as nat),
        ensures
            ({
                let s = self.spec_specs()[i as int];
                let cols = s.spec_columns();
                if extract_ok(cat, nrows as nat, cols) {
                    OneHotEncoder::transform_outcome(
                        s->encoder,
                        selected_cells(cat_cells(cat, nrows as nat), cols),
                        r,
                    )
                } else {
                    extraction_refused(cat, nrows as nat, cols, r)
                }
            }),
    {
        match &self.specs[i] {
            ColumnSpec::Categorical { columns, encoder, .. } => {
                let sub = extract_categorical_cols(cat, nrows, columns.as_slice());
                match sub {
                    Ok(m) => encoder.transform(&m),
                    Err(e) => {
                        let r: Result<CodeMatrix> = Err(e);
                        proof {
                            let c = columns@;
                            if !columns_below(c, cat_width(cat)) {
                                let k = choose|k: int|
                                    #[trigger] first_bad_column(c, cat_width(cat), k)
                                        && is_invalid_input(
                                        sub,
                                        out_of_range_text(c[k] as nat, cat_width(cat)),
                                    );
                                assert(first_bad_column(c, cat_width(cat), k));
                            }
                        }
                        r
                    },
                }
            },
            ColumnSpec::Numeric { .. } => vstd::pervasive::unreached(),
        }
    }

    /// The numeric columns below `n_numeric` that no block selected, in
    /// order: those passed through.
    pub fn remainder_numeric_columns(&self, n_numeric: usize) -> (r: Vec<usize>)
        ensures
            r@ == unused_columns(n_numeric as nat, self.spec_consumed_numeric()),
    {
        unused_below(n_numeric, &self.consumed_numeric)
    }

    /// Encodes the `k`-th passed-through categorical column of the
    /// categorical part `cat` of a table of `nrows` rows.
    pub fn transform_remainder_categorical(&self, k: usize, cat: Option<&StrMatrix>, nrows: usize) -> (r:
        Result<CodeMatrix>)
        requires
            k < self.spec_remainder_cat_cols().len(),
            table_rows_agree(cat, nrows as nat),
        ensures
            ({
                let cols = seq![self.spec_remainder_cat_cols()[k as int]];
                if extract_ok(cat, nrows as nat, cols) {
                    OneHotEncoder::transform_outcome(
                        self.spec_remainder_cat_encoders()[k as int],
                        selected_cells(cat_cells(cat, nrows as nat), cols),
                        r,
                    )
                } else {
                    extraction_refused(cat, nrows as nat, cols, r)
                }
            }),
    {
        let entry = &self.remainder_cat[k];
        let mut one: Vec<usize> = Vec::new();
        one.push(entry.0);
        assert(one@ =~= seq![self.spec_remainder_cat_cols()[k as int]]);
        let sub = extract_categorical_cols(cat, nrows, one.as_slice());
        match sub {
            Ok(m) => entry.1.transform(&m),
            Err(e) => {
                let r: Result<CodeMatrix> = Err(e);
                proof {
                    let c = one@;
                    if !columns_below(c, cat_width(cat)) {
                        let j = choose|j: int|
                            #[trigger] first_bad_column(c, cat_width(cat), j) && is_invalid_input(
                                sub,
                                out_of_range_text(c[j] as nat, cat_width(cat)),
                            );
                        assert(first_bad_column(c, cat_width(cat), j));
                    }
                }
                r
            },
        }
    }
}

/// Appends the texts of `v` to `out`.
fn append_all(out: &mut Vec<String>, v: Vec<String>)
    ensures
        texts(final(out)@) == texts(old(out)@) + texts(v@),
{
    let n = v.len();
    let ghost start = texts(out@);
    for t in 0..n
        invariant
            n == v@.len(),
            texts(out@) == start + texts(v@).take(t as int),
    {
        let ghost prev = out@;
        let x = v[t].clone();
        out.push(x);
        assert(texts(out@) =~= texts(prev).push(v@[t as int]@));
        assert(texts(v@).take(t + 1) =~= texts(v@).take(t as int).push(v@[t as int]@));
        assert(texts(out@) =~= start + texts(v@).take(t + 1));
    }
    assert(texts(v@).take(n as int) =~= texts(v@));
}

/// The name of categorical column `c` given the input names.
fn cat_name_text(names: &Vec<String>, c: usize) -> (r: String)
    ensures
        r@ == cat_name(texts(names@), c),
{
    if c < names.len() {
        names[c].clone()
    } else {
        let mut s = "cat".to_owned();
        let d = usize_text(c);
        s.append(d.as_str());
        s
    }
}

impl<T> ColumnTransformer<T> {
    /// Output feature names: each block's (a numeric block's input names,
    /// a categorical block's one-hot names), then with `Passthrough` the
    /// names of the unselected numeric columns and the one-hot names of the
    /// unselected categorical columns. Input names default to `x0, x1, ...`.
    pub fn feature_names_out(&self, input_features: Option<&[String]>) -> (r: Vec<String>)
        requires
            self.names_cover(
                self.input_names(
                    match input_features {
                        Some(fs) => Some(texts(fs@)),
                        None => None,
                    },
                ),
            ),
        ensures
            texts(r@) == self.output_names(
                self.input_names(
                    match input_features {
                        Some(fs) => Some(texts(fs@)),
                        None => None,
                    },
                ),
            ),
    {
        let names: Vec<String> = match input_features {
            Some(fs) => {
                let m = fs.len();
                let mut v: Vec<String> = Vec::new();
                for j in 0..m
                    invariant
                        m == fs@.len(),
                        v@.len() == j,
                        forall|k: int| 0 <= k < j ==> (#[trigger] v@[k])@ == fs@[k]@,
                {
                    v.push(fs[j].clone());
                }
                assert(texts(v@) =~= texts(fs@));
                v
            },
            None => {
                let w = if self.total_numeric_cols >= self.total_categorical_cols {
                    self.total_numeric_cols
                } else {
                    self.total_categorical_cols
                };
                let v = default_input_names(w);
                assert(texts(v@) =~= Seq::new(w as nat, |j: int| default_name(j as nat)));
                v
            },
        };
        let ghost ns = texts(names@);
        assert(ns == self.input_names(
            match input_features {
                Some(fs) => Some(texts(fs@)),
                None => None,
            },
        ));
        let ghost specs = self.spec_specs();
        let nb = self.specs.len();
        let mut out: Vec<String> = Vec::new();
        for b in 0..nb
            invariant
                nb == specs.len(),
                specs == self.spec_specs(),
                ns == texts(names@),
                self.names_cover(ns),
                texts(out@) == joined(Seq::new(b as nat, |c: int| block_names(specs[c], ns))),
        {
            let ghost before = texts(out@);
            match &self.specs[b] {
                ColumnSpec::Numeric { columns, .. } => {
                    let m = columns.len();
                    for k in 0..m
                        invariant
                            m == columns@.len(),
                            b < nb,
                            nb == specs.len(),
                            specs == self.spec_specs(),
                            specs[b as int] is Numeric,
                            specs[b as int].spec_columns() == columns@,
                            ns == texts(names@),
                            self.names_cover(ns),
                            texts(out@) == before + Seq::new(k as nat, |t: int| ns[columns@[t] as int]),
                    {
                        let c = columns[k];
                        assert(specs[b as int].spec_columns()[k as int] < ns.len());
                        let ghost prev = out@;
                        let x = names[c].clone();
                        out.push(x);
                        assert(texts(out@) =~= texts(prev).push(ns[c as int]));
                        assert(texts(out@) =~= before + Seq::new((k + 1) as nat, |t: int| ns[columns@[t] as int]));
                    }
                },
                ColumnSpec::Categorical { columns, encoder, .. } => {
                    let m = columns.len();
                    let mut sub: Vec<String> = Vec::new();
                    for k in 0..m
                        invariant
                            m == columns@.len(),
                            ns == texts(names@),
                            sub@.len() == k,
                            forall|t: int| 0 <= t < k ==> (#[trigger] sub@[t])@ == cat_name(ns, columns@[t]),
                    {
                        sub.push(cat_name_text(&names, columns[k]));
                    }
                    assert(texts(sub@) =~= Seq::new(columns@.len(), |k: int| cat_name(ns, columns@[k])));
                    let part = encoder.feature_names_out(Some(sub.as_slice()));
                    append_all(&mut out, part);
                },
            }
            assert(Seq::new((b + 1) as nat, |c: int| block_names(specs[c], ns)).drop_last() =~= Seq::new(
                b as nat,
                |c: int| block_names(specs[c], ns),
            ));
        }
        if self.remainder == Remainder::Passthrough {
            let ghost blocks = texts(out@);
            let unused = unused_below(self.total_numeric_cols, &self.consumed_numeric);
            proof {
                lemma_unused_columns(self.spec_total_numeric(), self.spec_consumed_numeric());
            }
            let m = unused.len();
            for k in 0..m
                invariant
                    m == unused@.len(),
                    unused@ == unused_columns(self.spec_total_numeric(), self.spec_consumed_numeric()),
                    forall|t: int| 0 <= t < m ==> #[trigger] unused@[t] < self.spec_total_numeric(),
                    self.spec_remainder() == Remainder::Passthrough,
                    ns == texts(names@),
                    self.names_cover(ns),
                    texts(out@) == blocks + Seq::new(k as nat, |t: int| ns[unused@[t] as int]),
            {
                let ghost prev = out@;
                let x = names[unused[k]].clone();
                out.push(x);
                assert(texts(out@) =~= texts(prev).push(ns[unused@[k as int] as int]));
                assert(texts(out@) =~= blocks + Seq::new((k + 1) as nat, |t: int| ns[unused@[t] as int]));
            }
            let ghost mid = texts(out@);
            let ghost cols = self.spec_remainder_cat_cols();
            let ghost encs = self.spec_remainder_cat_encoders();
            let nr = self.remainder_cat.len();
            for k in 0..nr
                invariant
                    nr == self.remainder_cat@.len(),
                    cols == self.spec_remainder_cat_cols(),
                    encs == self.spec_remainder_cat_encoders(),
                    ns == texts(names@),
                    texts(out@) == mid + joined(
                        Seq::new(k as nat, |t: int| passthrough_cat_names(encs[t], ns, cols[t])),
                    ),
            {
                let entry = &self.remainder_cat[k];
                let mut one: Vec<String> = Vec::new();
                one.push(cat_name_text(&names, entry.0));
                assert(texts(one@) =~= seq![cat_name(ns, cols[k as int])]);
                let part = entry.1.feature_names_out(Some(one.as_slice()));
                let ghost prev = texts(out@);
                append_all(&mut out, part);
                assert(Seq::new((k + 1) as nat, |t: int| passthrough_cat_names(encs[t], ns, cols[t])).drop_last()
                    =~= Seq::new(k as nat, |t: int| passthrough_cat_names(encs[t], ns, cols[t])));
                assert(texts(out@) =~= mid + joined(
                    Seq::new((k + 1) as nat, |t: int| passthrough_cat_names(encs[t], ns, cols[t])),
                ));
            }
        }
        out
    }
}

impl Default for Remainder {
    fn default() -> (r: Self)
        ensures
            r == Remainder::Drop,
    {
        Remainder::Drop
    }
}

impl<T> Default for ColumnTransformer<T> {
    fn default() -> (r: Self)
        ensures
            r.spec_specs().len() == 0,
            r.spec_remainder() == Remainder::Drop,
            r.unfitted_state(),
    {
        Self::new()
    }
}

/// One block of a column transformer's output, in the order blocks are laid
/// side by side.
#[derive(Debug, Clone, Copy, PartialEq, Eq, Structural)]
pub enum OutputBlock {
    /// The output of block `i` (numeric: its transformer's; categorical:
    /// its one-hot codes).
    Spec(usize),
    /// The numeric columns that no block selected, as they are, in order.
    NumericRemainder,
    /// The `k`-th passed-through categorical column, one-hot encoded.
    CategoricalRemainder(usize),
}

impl<T> ColumnTransformer<T> {
    /// The output layout for a table with `n_numeric` numeric columns: every
    /// block in insertion order; then, with `Passthrough`, the unselected
    /// numeric columns (when there are any) and each passed-through
    /// categorical column.
    pub open spec fn output_layout(&self, n_numeric: nat) -> Seq<OutputBlock> {
        let blocks = Seq::new(self.spec_specs().len(), |i: int| OutputBlock::Spec(i as usize));
        if self.spec_remainder() == Remainder::Passthrough {
            let numeric = if unused_columns(n_numeric, self.spec_consumed_numeric()).len() > 0 {
                seq![OutputBlock::NumericRemainder]
            } else {
                Seq::<OutputBlock>::empty()
            };
            blocks + numeric + Seq::new(
                self.spec_remainder_cat_cols().len(),
                |k: int| OutputBlock::CategoricalRemainder(k as usize),
            )
        } else {
            blocks
        }
    }

    /// The blocks of the output of a table with `n_numeric` numeric columns,
    /// in the order they are laid side by side.
    pub fn output_plan(&self, n_numeric: usize) -> (r: Vec<OutputBlock>)
        ensures
            r@ == self.output_layout(n_numeric as nat),
    {
        let n = self.specs.len();
        let mut out: Vec<OutputBlock> = Vec::new();
        for i in 0..n
            invariant
                n == self.spec_specs().len(),
                out@ == Seq::new(i as nat, |b: int| OutputBlock::Spec(b as usize)),
        {
            out.push(OutputBlock::Spec(i));
            assert(out@ =~= Seq::new((i + 1) as nat, |b: int| OutputBlock::Spec(b as usize)));
        }
        if self.remainder == Remainder::Passthrough {
            let ghost blocks = out@;
            let rem = unused_below(n_numeric, &self.consumed_numeric);
            if rem.len() > 0 {
                out.push(OutputBlock::NumericRemainder);
            }
            let ghost mid = out@;
            let m = self.remainder_cat.len();
            for k in 0..m
                invariant
                    m == self.spec_remainder_cat_cols().len(),
                    out@ == mid + Seq::new(k as nat, |t: int| OutputBlock::CategoricalRemainder(t as usize)),
            {
                out.push(OutputBlock::CategoricalRemainder(k));
                assert(out@ =~= mid + Seq::new(
                    (k + 1) as nat,
                    |t: int| OutputBlock::CategoricalRemainder(t as usize),
                ));
            }
            assert(out@ =~= self.output_layout(n_numeric as nat));
        }
        out
    }
}

} // verus!
