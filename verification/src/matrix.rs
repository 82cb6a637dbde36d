//! Rectangular containers: a matrix of strings read by the categorical
//! encoders, and a matrix of integer codes that they produce.

use vstd::prelude::*;
use crate::error::{
    is_empty_input, is_invalid_input, is_shape_mismatch, DatarustError, Result,
};
use crate::text::{decimal, texts, usize_text};

verus! {

/// The row lengths of a grid.
pub open spec fn row_lengths<T>(g: Seq<Seq<T>>) -> Seq<int> {
    Seq::new(g.len(), |i: int| g[i].len() as int)
}

/// At least one row and one column, and every row as long as the first.
pub open spec fn is_rectangular<T>(g: Seq<Seq<T>>) -> bool {
    &&& g.len() >= 1
    &&& g[0].len() >= 1
    &&& forall|i: int| 0 <= i < g.len() ==> (#[trigger] g[i]).len() == g[0].len()
}

/// Row `i` is the first whose length differs from that of row 0.
pub open spec fn first_ragged_row(lens: Seq<int>, i: int) -> bool {
    &&& 0 <= i < lens.len()
    &&& lens[i] != lens[0]
    &&& forall|k: int| 0 <= k < i ==> #[trigger] lens[k] == lens[0]
}

/// Some row's length differs from that of row 0.
pub open spec fn is_ragged(lens: Seq<int>) -> bool {
    exists|i: int| 0 <= i < lens.len() && #[trigger] lens[i] != lens[0]
}

/// The text of the shape error for a row of the wrong length.
pub open spec fn ragged_expected(cols: int) -> Seq<char> {
    decimal(cols as nat) + " columns"@
}

/// The text of the shape error for a row of the wrong length.
pub open spec fn ragged_actual(len: int, row: int) -> Seq<char> {
    decimal(len as nat) + " columns at row "@ + decimal(row as nat)
}

/// The error that a constructor gives for a grid that is not rectangular.
pub open spec fn rejects_shape<T, U>(g: Seq<Seq<T>>, r: Result<U>) -> bool {
    let lens = row_lengths(g);
    if g.len() == 0 {
        is_empty_input(r, "matrix has no rows"@)
    } else if g[0].len() == 0 {
        is_empty_input(r, "matrix has no columns"@)
    } else {
        exists|i: int|
            #[trigger] first_ragged_row(lens, i) && is_shape_mismatch(
                r,
                ragged_expected(lens[0]),
                ragged_actual(lens[i], i),
            )
    }
}

/// Finds the first row whose length differs from that of row 0, if any.
fn find_ragged_row(lens: &Vec<usize>) -> (r: Option<usize>)
    requires
        lens@.len() >= 1,
    ensures
        match r {
            Some(i) => first_ragged_row(lens@.map_values(|l: usize| l as int), i as int),
            None => !is_ragged(lens@.map_values(|l: usize| l as int)),
        },
{
    let ghost ls = lens@.map_values(|l: usize| l as int);
    let n = lens.len();
    let c = lens[0];
    let mut i: usize = 0;
    while i < n
        invariant
            n == lens@.len(),
            n >= 1,
            c == lens@[0],
            ls == lens@.map_values(|l: usize| l as int),
            i <= n,
            forall|k: int| 0 <= k < i ==> #[trigger] ls[k] == ls[0],
        decreases n - i,
    {
        if lens[i] != c {
            return Some(i);
        }
        i = i + 1;
    }
    None
}

/// A shape refusal carries over from one result to another holding the
/// same error.
proof fn lemma_refusal_carries<T, U, V>(g: Seq<Seq<T>>, a: Result<U>, b: Result<V>)
    requires
        rejects_shape(g, a),
        a matches Err(e1) && b matches Err(e2) && e1 == e2,
    ensures
        rejects_shape(g, b),
{
    let lens = row_lengths(g);
    if g.len() > 0 && g[0].len() > 0 {
        let i = choose|i: int|
            #[trigger] first_ragged_row(lens, i) && is_shape_mismatch(
                a,
                ragged_expected(lens[0]),
                ragged_actual(lens[i], i),
            );
        assert(first_ragged_row(lens, i));
    }
}

/// A shape refusal depends only on the row count and row lengths.
proof fn lemma_rejects_shape_by_lengths<T, U, V>(g: Seq<Seq<T>>, h: Seq<Seq<U>>, r: Result<V>)
    requires
        rejects_shape(g, r),
        g.len() == h.len(),
        row_lengths(g) == row_lengths(h),
    ensures
        rejects_shape(h, r),
{
    if g.len() > 0 {
        assert(row_lengths(g)[0] == g[0].len());
        assert(row_lengths(h)[0] == h[0].len());
    }
}

/// Checks that a grid has a row, a column, and rows of equal length,
/// refusing it as [`rejects_shape`] describes otherwise.
pub fn check_rectangular<T>(data: &Vec<Vec<T>>) -> (r: Result<()>)
    ensures
        ({
            let g = Seq::new(data@.len(), |i: int| data@[i]@);
            &&& is_rectangular(g) ==> r is Ok
            &&& !is_rectangular(g) ==> rejects_shape(g, r)
        }),
{
    let ghost g = Seq::new(data@.len(), |i: int| data@[i]@);
    if data.len() == 0 {
        return Err(DatarustError::EmptyInput("matrix has no rows".to_owned()));
    }
    let cols = data[0].len();
    if cols == 0 {
        return Err(DatarustError::EmptyInput("matrix has no columns".to_owned()));
    }
    let mut lens: Vec<usize> = Vec::new();
    let n = data.len();
    for i in 0..n
        invariant
            n == data@.len(),
            lens@.len() == i,
            forall|k: int| 0 <= k < i ==> #[trigger] lens@[k] == data@[k]@.len(),
    {
        lens.push(data[i].len());
    }
    let ghost ls = lens@.map_values(|l: usize| l as int);
    assert(ls =~= row_lengths(g));
    match find_ragged_row(&lens) {
        Some(i) => {
            let mut expected = usize_text(cols);
            expected.append(" columns");
            let mut actual = usize_text(lens[i]);
            actual.append(" columns at row ");
            let row_text = usize_text(i);
            actual.append(row_text.as_str());
            assert(ls[i as int] == lens@[i as int]);
            return Err(DatarustError::ShapeMismatch { expected, actual });
        },
        None => {},
    }
    assert forall|i: int| 0 <= i < g.len() implies (#[trigger] g[i]).len() == g[0].len() by {
        assert(ls[i] == ls[0]);
    }
    Ok(())
}

/// A non-empty rectangular matrix of strings, row-major.
#[derive(Debug, PartialEq)]
pub struct StrMatrix {
    pub(crate) data: Vec<Vec<String>>,
}

impl View for StrMatrix {
    type V = Seq<Seq<Seq<char>>>;

    closed spec fn view(&self) -> Seq<Seq<Seq<char>>> {
        Seq::new(self.data@.len(), |i: int| texts(self.data@[i]@))
    }
}

impl StrMatrix {
    /// Rectangular, non-empty, and its cell count fits in `usize`.
    #[verifier::type_invariant]
    pub open spec fn well_formed(self) -> bool {
        &&& is_rectangular(self@)
        &&& self@.len() * self@[0].len() <= usize::MAX
    }

    /// Number of rows of a well-formed view.
    pub open spec fn spec_nrows(self) -> nat {
        self@.len()
    }

    /// Number of columns of a well-formed view.
    pub open spec fn spec_ncols(self) -> nat {
        self@[0].len()
    }

    /// Creates a string matrix from a nested vector, validating a rectangular
    /// shape. A grid with more cells than `usize::MAX` (which no machine can
    /// hold) is rejected as `InvalidInput`.
    pub fn new(data: Vec<Vec<String>>) -> (r: Result<Self>)
        ensures
            ({
                let g = Seq::new(data@.len(), |i: int| texts(data@[i]@));
                if !is_rectangular(g) {
                    rejects_shape(g, r)
                } else if g.len() * g[0].len() > usize::MAX {
                    is_invalid_input(r, "matrix too large"@)
                } else {
                    r matches Ok(s) && s@ == g
                }
            }),
    {
        let ghost g = Seq::new(data@.len(), |i: int| texts(data@[i]@));
        let ghost raw = Seq::new(data@.len(), |i: int| data@[i]@);
        assert(row_lengths(raw) =~= row_lengths(g));
        match check_rectangular(&data) {
            Err(e) => {
                proof {
                    lemma_refusal_carries(raw, Err::<(), DatarustError>(e), Err::<Self, DatarustError>(e));
                    lemma_rejects_shape_by_lengths(raw, g, Err::<Self, DatarustError>(e));
                }
                return Err(e);
            },
            Ok(()) => {},
        }
        let n = data.len();
        let cols = data[0].len();
        assert(g[0].len() == cols);
        assert forall|i: int| 0 <= i < g.len() implies (#[trigger] g[i]).len() == g[0].len() by {
            assert(raw[i].len() == raw[0].len());
        }
        if n.checked_mul(cols).is_none() {
            return Err(DatarustError::InvalidInput("matrix too large".to_owned()));
        }
        let m = StrMatrix { data };
        assert(m@ =~= g);
        Ok(m)
    }

    /// Creates a single-column string matrix.
    pub fn from_column(col: Vec<&str>) -> (r: Result<Self>)
        ensures
            col@.len() == 0 ==> is_empty_input(r, "column has no rows"@),
            col@.len() > 0 ==> (r matches Ok(s) && s@ == Seq::new(
                col@.len(),
                |i: int| seq![col@[i]@],
            )),
    {
        let n = col.len();
        if n == 0 {
            return Err(DatarustError::EmptyInput("column has no rows".to_owned()));
        }
        let mut data: Vec<Vec<String>> = Vec::new();
        for i in 0..n
            invariant
                n == col@.len(),
                data@.len() == i,
                forall|k: int|
                    0 <= k < i ==> texts((#[trigger] data@[k])@) == seq![col@[k]@],
        {
            let mut row: Vec<String> = Vec::new();
            row.push(col[i].to_owned());
            assert(texts(row@) =~= seq![col@[i as int]@]);
            data.push(row);
        }
        let ghost g = Seq::new(data@.len(), |i: int| texts(data@[i]@));
        assert forall|i: int| 0 <= i < g.len() implies (#[trigger] g[i]).len() == 1 by {
            assert(g[i] == seq![col@[i]@]);
        }
        assert(is_rectangular(g));
        assert(g.len() * g[0].len() == n);
        let r = Self::new(data);
        assert(g =~= Seq::new(col@.len(), |i: int| seq![col@[i]@]));
        r
    }

    /// Creates a string matrix from rows of texts; the shape is validated as
    /// by [`StrMatrix::new`].
    pub fn from_strings(rows: Vec<Vec<&str>>) -> (r: Result<Self>)
        ensures
            ({
                let g = Seq::new(rows@.len(), |i: int| rows@[i]@.map_values(|s: &str| s@));
                if !is_rectangular(g) {
                    rejects_shape(g, r)
                } else if g.len() * g[0].len() > usize::MAX {
                    is_invalid_input(r, "matrix too large"@)
                } else {
                    r matches Ok(s) && s@ == g
                }
            }),
    {
        let n = rows.len();
        let mut data: Vec<Vec<String>> = Vec::new();
        for i in 0..n
            invariant
                n == rows@.len(),
                data@.len() == i,
                forall|k: int|
                    0 <= k < i ==> texts((#[trigger] data@[k])@) == rows@[k]@.map_values(
                        |s: &str| s@,
                    ),
        {
            let src = &rows[i];
            let m = src.len();
            let mut row: Vec<String> = Vec::new();
            for j in 0..m
                invariant
                    m == src@.len(),
                    row@.len() == j,
                    forall|k: int| 0 <= k < j ==> (#[trigger] row@[k])@ == src@[k]@,
            {
                row.push(src[j].to_owned());
            }
            assert(texts(row@) =~= src@.map_values(|s: &str| s@));
            data.push(row);
        }
        let ghost g = Seq::new(rows@.len(), |i: int| rows@[i]@.map_values(|s: &str| s@));
        assert(Seq::new(data@.len(), |i: int| texts(data@[i]@)) =~= g);
        Self::new(data)
    }

    /// Returns the number of rows.
    pub fn nrows(&self) -> (r: usize)
        ensures
            r == self@.len(),
    {
        self.data.len()
    }

    /// Returns the number of columns.
    pub fn ncols(&self) -> (r: usize)
        ensures
            r == self@[0].len(),
    {
        proof {
            use_type_invariant(self);
        }
        self.data[0].len()
    }

    /// Returns the string at row `i`, column `j`.
    pub fn get(&self, i: usize, j: usize) -> (r: &str)
        requires
            i < self@.len(),
            j < self@[0].len(),
        ensures
            r@ == self@[i as int][j as int],
    {
        proof {
            use_type_invariant(self);
            assert(self@[i as int].len() == self@[0].len());
        }
        self.data[i][j].as_str()
    }

    /// Returns column `j` as a new vector of strings.
    pub fn column(&self, j: usize) -> (r: Vec<String>)
        requires
            j < self@[0].len(),
        ensures
            texts(r@) == Seq::new(self@.len(), |i: int| self@[i][j as int]),
    {
        proof {
            use_type_invariant(self);
        }
        let n = self.data.len();
        let mut out: Vec<String> = Vec::new();
        for i in 0..n
            invariant
                n == self@.len(),
                j < self@[0].len(),
                is_rectangular(self@),
                out@.len() == i,
                forall|k: int| 0 <= k < i ==> (#[trigger] out@[k])@ == self@[k][j as int],
        {
            assert(self@[i as int].len() == self@[0].len());
            out.push(self.data[i][j].clone());
        }
        assert(texts(out@) =~= Seq::new(self@.len(), |i: int| self@[i][j as int]));
        out
    }

    /// Returns the row at index `i` as a slice.
    pub fn row(&self, i: usize) -> (r: &[String])
        requires
            i < self@.len(),
        ensures
            texts(r@) == self@[i as int],
    {
        self.data[i].as_slice()
    }
}

/// A non-empty rectangular matrix of integer codes, row-major.
#[derive(Debug, PartialEq)]
pub struct CodeMatrix {
    pub(crate) data: Vec<Vec<i128>>,
}

impl View for CodeMatrix {
    type V = Seq<Seq<i128>>;

    closed spec fn view(&self) -> Seq<Seq<i128>> {
        Seq::new(self.data@.len(), |i: int| self.data@[i]@)
    }
}

impl CodeMatrix {
    /// Rectangular and non-empty.
    #[verifier::type_invariant]
    pub open spec fn well_formed(self) -> bool {
        is_rectangular(self@)
    }

    /// Creates a code matrix from a nested vector, validating a rectangular shape.
    pub fn new(data: Vec<Vec<i128>>) -> (r: Result<Self>)
        ensures
            ({
                let g = Seq::new(data@.len(), |i: int| data@[i]@);
                if !is_rectangular(g) {
                    rejects_shape(g, r)
                } else {
                    r matches Ok(s) && s@ == g
                }
            }),
    {
        let ghost g = Seq::new(data@.len(), |i: int| data@[i]@);
        match check_rectangular(&data) {
            Err(e) => {
                proof {
                    lemma_refusal_carries(g, Err::<(), DatarustError>(e), Err::<Self, DatarustError>(e));
                }
                return Err(e);
            },
            Ok(()) => {},
        }
        let m = CodeMatrix { data };
        assert(m@ =~= g);
        Ok(m)
    }

    /// Returns the number of rows.
    pub fn nrows(&self) -> (r: usize)
        ensures
            r == self@.len(),
    {
        self.data.len()
    }

    /// Returns the number of columns.
    pub fn ncols(&self) -> (r: usize)
        ensures
            r == self@[0].len(),
    {
        proof {
            use_type_invariant(self);
        }
        self.data[0].len()
    }

    /// Returns the code at row `i`, column `j`.
    pub fn get(&self, i: usize, j: usize) -> (r: i128)
        requires
            i < self@.len(),
            j < self@[0].len(),
        ensures
            r == self@[i as int][j as int],
    {
        proof {
            use_type_invariant(self);
            assert(self@[i as int].len() == self@[0].len());
        }
        self.data[i][j]
    }

    /// Returns the row at index `i` as a slice.
    pub fn row(&self, i: usize) -> (r: &[i128])
        requires
            i < self@.len(),
        ensures
            r@ == self@[i as int],
    {
        self.data[i].as_slice()
    }
}

impl Clone for StrMatrix {
    fn clone(&self) -> (r: Self)
        ensures
            r@ == self@,
    {
        proof {
            use_type_invariant(self);
        }
        let n = self.data.len();
        let mut data: Vec<Vec<String>> = Vec::new();
        for i in 0..n
            invariant
                n == self.data@.len(),
                data@.len() == i,
                forall|k: int| 0 <= k < i ==> texts((#[trigger] data@[k])@) == texts(self.data@[k]@),
        {
            let src = &self.data[i];
            let m = src.len();
            let mut row: Vec<String> = Vec::new();
            for j in 0..m
                invariant
                    m == src@.len(),
                    row@.len() == j,
                    forall|k: int| 0 <= k < j ==> (#[trigger] row@[k])@ == src@[k]@,
            {
                row.push(src[j].clone());
            }
            assert(texts(row@) =~= texts(src@));
            data.push(row);
        }
        assert(Seq::new(data@.len(), |i: int| texts(data@[i]@)) =~= self@);
        let r = StrMatrix { data };
        r
    }
}

impl Clone for CodeMatrix {
    fn clone(&self) -> (r: Self)
        ensures
            r@ == self@,
    {
        proof {
            use_type_invariant(self);
        }
        let n = self.data.len();
        let mut data: Vec<Vec<i128>> = Vec::new();
        for i in 0..n
            invariant
                n == self.data@.len(),
                data@.len() == i,
                forall|k: int| 0 <= k < i ==> (#[trigger] data@[k])@ == self.data@[k]@,
        {
            let src = &self.data[i];
            let m = src.len();
            let mut row: Vec<i128> = Vec::new();
            for j in 0..m
                invariant
                    m == src@.len(),
                    row@.len() == j,
                    forall|k: int| 0 <= k < j ==> #[trigger] row@[k] == src@[k],
            {
                row.push(src[j]);
            }
            assert(row@ =~= src@);
            data.push(row);
        }
        assert(Seq::new(data@.len(), |i: int| data@[i]@) =~= self@);
        let r = CodeMatrix { data };
        r
    }
}

/// The positions of the non-zero codes of `s`, in order.
pub open spec fn nonzero_positions(s: Seq<i128>) -> Seq<usize>
    decreases s.len(),
{
    if s.len() == 0 {
        Seq::<usize>::empty()
    } else {
        nonzero_positions(s.drop_last()) + if s.last() != 0 {
            seq![(s.len() - 1) as usize]
        } else {
            Seq::<usize>::empty()
        }
    }
}

/// The non-zero codes of `s`, in order.
pub open spec fn nonzero_values(s: Seq<i128>) -> Seq<i128>
    decreases s.len(),
{
    if s.len() == 0 {
        Seq::<i128>::empty()
    } else {
        nonzero_values(s.drop_last()) + if s.last() != 0 {
            seq![s.last()]
        } else {
            Seq::<i128>::empty()
        }
    }
}

/// The number of non-zero codes of all rows.
pub open spec fn dense_nonzeros(rows: Seq<Seq<i128>>) -> nat
    decreases rows.len(),
{
    if rows.len() == 0 {
        0
    } else {
        dense_nonzeros(rows.drop_last()) + nonzero_positions(rows.last()).len()
    }
}

/// The number of codes equal to 1 in `s`.
pub open spec fn count_ones(s: Seq<i128>) -> nat
    decreases s.len(),
{
    if s.len() == 0 {
        0
    } else {
        count_ones(s.drop_last()) + if s.last() == 1 {
            1nat
        } else {
            0nat
        }
    }
}

/// The number of codes equal to 1 in all rows.
pub open spec fn dense_ones(rows: Seq<Seq<i128>>) -> nat
    decreases rows.len(),
{
    if rows.len() == 0 {
        0
    } else {
        dense_ones(rows.drop_last()) + count_ones(rows.last())
    }
}

/// Every code is 0 or 1.
pub open spec fn binary_codes(s: Seq<i128>) -> bool {
    forall|k: int| 0 <= k < s.len() ==> #[trigger] s[k] == 0 || s[k] == 1
}

/// In rows of 0 and 1 codes, the non-zero codes are the ones.
pub proof fn lemma_nonzeros_are_ones(rows: Seq<Seq<i128>>)
    requires
        forall|i: int| 0 <= i < rows.len() ==> binary_codes(#[trigger] rows[i]),
    ensures
        dense_nonzeros(rows) == dense_ones(rows),
    decreases rows.len(),
{
    if rows.len() > 0 {
        let t = rows.drop_last();
        assert forall|i: int| 0 <= i < t.len() implies binary_codes(#[trigger] t[i]) by {
            assert(t[i] == rows[i]);
        }
        lemma_nonzeros_are_ones(t);
        lemma_row_nonzeros_are_ones(rows.last());
    }
}

proof fn lemma_row_nonzeros_are_ones(s: Seq<i128>)
    requires
        binary_codes(s),
    ensures
        nonzero_positions(s).len() == count_ones(s),
    decreases s.len(),
{
    if s.len() > 0 {
        let t = s.drop_last();
        assert forall|k: int| 0 <= k < t.len() implies #[trigger] t[k] == 0 || t[k] == 1 by {
            assert(t[k] == s[k]);
        }
        lemma_row_nonzeros_are_ones(t);
        assert(s.last() == s[s.len() - 1]);
    }
}

/// The code at column `j` of a row stored as columns `cols` with values
/// `vals`: the value stored for `j`, or 0.
pub open spec fn stored_entry(cols: Seq<usize>, vals: Seq<i128>, j: usize) -> i128 {
    if cols.contains(j) {
        vals[choose|t: int| 0 <= t < cols.len() && cols[t] == j]
    } else {
        0
    }
}

/// The positions of the non-zero codes of a row are increasing, below its
/// length, and as many as its non-zero codes.
pub proof fn lemma_nonzero_positions(s: Seq<i128>)
    requires
        s.len() <= usize::MAX,
    ensures
        nonzero_positions(s).len() == nonzero_values(s).len(),
        forall|a: int, b: int|
            0 <= a < b < nonzero_positions(s).len() ==> nonzero_positions(s)[a] < nonzero_positions(
                s,
            )[b],
        forall|a: int| 0 <= a < nonzero_positions(s).len() ==> #[trigger] nonzero_positions(s)[a] < s.len(),
        forall|a: int|
            0 <= a < nonzero_positions(s).len() ==> s[#[trigger] nonzero_positions(s)[a] as int]
                == nonzero_values(s)[a] && nonzero_values(s)[a] != 0,
        forall|j: int|
            0 <= j < s.len() && s[j] != 0 ==> #[trigger] nonzero_positions(s).contains(j as usize),
    decreases s.len(),
{
    if s.len() > 0 {
        let t = s.drop_last();
        lemma_nonzero_positions(t);
        assert forall|j: int| 0 <= j < s.len() && s[j] != 0 implies #[trigger] nonzero_positions(
            s,
        ).contains(j as usize) by {
            if j < t.len() {
                assert(t[j] == s[j]);
                assert(nonzero_positions(t).contains(j as usize));
                let w = choose|w: int|
                    0 <= w < nonzero_positions(t).len() && nonzero_positions(t)[w] == j as usize;
                assert(nonzero_positions(s)[w] == j as usize);
            } else {
                assert(nonzero_positions(s)[nonzero_positions(t).len() as int] == j as usize);
            }
        }
    }
}

/// A stored row reads back the dense row it was made from: the entry at
/// each column is the code there.
pub proof fn lemma_stored_entry(s: Seq<i128>, j: int)
    requires
        s.len() <= usize::MAX,
        0 <= j < s.len(),
    ensures
        stored_entry(nonzero_positions(s), nonzero_values(s), j as usize) == s[j],
{
    lemma_nonzero_positions(s);
    let cols = nonzero_positions(s);
    let vals = nonzero_values(s);
    if cols.contains(j as usize) {
        let t = choose|t: int| 0 <= t < cols.len() && cols[t] == j as usize;
        assert(s[cols[t] as int] == vals[t]);
    } else if s[j] != 0 {
        assert(cols.contains(j as usize));
    }
}

/// Compressed sparse rows: row `i` stores its non-zero codes at positions
/// `indptr[i]..indptr[i + 1]` of `indices` (their columns, increasing) and
/// `data` (the codes).
#[verifier::opaque]
pub open spec fn csr_well_formed(
    nrows: nat,
    ncols: nat,
    indptr: Seq<usize>,
    indices: Seq<usize>,
    data: Seq<i128>,
) -> bool {
    &&& indptr.len() == nrows + 1
    &&& indptr[0] == 0
    &&& forall|a: int, b: int| 0 <= a <= b <= nrows ==> indptr[a] <= indptr[b]
    &&& indptr[nrows as int] == indices.len()
    &&& indices.len() == data.len()
    &&& forall|t: int| 0 <= t < indices.len() ==> #[trigger] indices[t] < ncols
    &&& forall|i: int, a: int, b: int|
        #![trigger indptr[i], indices[a], indices[b]]
        0 <= i < nrows && indptr[i] <= a < b < indptr[i + 1] ==> indices[a] < indices[b]
}

/// A matrix of integer codes stored as compressed sparse rows.
#[derive(Debug)]
pub struct SparseCodeMatrix {
    nrows: usize,
    ncols: usize,
    indptr: Vec<usize>,
    indices: Vec<usize>,
    data: Vec<i128>,
}

impl SparseCodeMatrix {
    #[verifier::type_invariant]
    spec fn inv(self) -> bool {
        csr_well_formed(
            self.nrows as nat,
            self.ncols as nat,
            self.indptr@,
            self.indices@,
            self.data@,
        )
    }

    /// The number of rows.
    pub closed spec fn spec_nrows(&self) -> nat {
        self.nrows as nat
    }

    /// The number of columns.
    pub closed spec fn spec_ncols(&self) -> nat {
        self.ncols as nat
    }

    /// The columns of the stored codes of row `i`, increasing.
    pub open spec fn spec_row_columns(&self, i: int) -> Seq<usize> {
        self.spec_indices().subrange(self.spec_indptr()[i] as int, self.spec_indptr()[i + 1] as int)
    }

    /// The stored codes of row `i`.
    pub open spec fn spec_row_values(&self, i: int) -> Seq<i128> {
        self.spec_data().subrange(self.spec_indptr()[i] as int, self.spec_indptr()[i + 1] as int)
    }

    /// The number of stored codes.
    pub closed spec fn spec_nnz(&self) -> nat {
        self.data@.len()
    }

    /// The row offsets.
    pub closed spec fn spec_indptr(&self) -> Seq<usize> {
        self.indptr@
    }

    /// The column of each stored code.
    pub closed spec fn spec_indices(&self) -> Seq<usize> {
        self.indices@
    }

    /// The stored codes.
    pub closed spec fn spec_data(&self) -> Seq<i128> {
        self.data@
    }

    /// The number of columns fits in `usize`.
    pub proof fn lemma_ncols_bound(&self)
        ensures
            self.spec_ncols() <= usize::MAX,
    {
    }

    /// Assembles a matrix from well-formed compressed rows.
    pub(crate) fn from_parts(
        nrows: usize,
        ncols: usize,
        indptr: Vec<usize>,
        indices: Vec<usize>,
        data: Vec<i128>,
    ) -> (r: Self)
        requires
            csr_well_formed(nrows as nat, ncols as nat, indptr@, indices@, data@),
        ensures
            r.spec_nrows() == nrows,
            r.spec_ncols() == ncols,
            r.spec_indptr() == indptr@,
            r.spec_indices() == indices@,
            r.spec_data() == data@,
            r.spec_nnz() == data@.len(),
    {
        SparseCodeMatrix { nrows, ncols, indptr, indices, data }
    }

    /// The number of rows.
    pub fn nrows(&self) -> (r: usize)
        ensures
            r == self.spec_nrows(),
    {
        self.nrows
    }

    /// The number of columns.
    pub fn ncols(&self) -> (r: usize)
        ensures
            r == self.spec_ncols(),
    {
        self.ncols
    }

    /// The number of stored codes: where the last row's codes end.
    pub fn nnz(&self) -> (r: usize)
        ensures
            r == self.spec_nnz(),
            r == self.spec_indices().len(),
            r == self.spec_indptr()[self.spec_nrows() as int],
    {
        proof {
            use_type_invariant(self);
            reveal(csr_well_formed);
        }
        self.data.len()
    }

    /// The code at row `i`, column `j`: the stored one, or 0.
    pub fn get(&self, i: usize, j: usize) -> (r: i128)
        requires
            i < self.spec_nrows(),
        ensures
            r == stored_entry(self.spec_row_columns(i as int), self.spec_row_values(i as int), j),
    {
        proof {
            use_type_invariant(self);
            reveal(csr_well_formed);
        }
        let a = self.indptr[i];
        let b = self.indptr[i + 1];
        let ghost cols = self.spec_row_columns(i as int);
        let ghost vals = self.spec_row_values(i as int);
        let mut t = a;
        while t < b
            invariant
                i < self.nrows,
                csr_well_formed(
                    self.nrows as nat,
                    self.ncols as nat,
                    self.indptr@,
                    self.indices@,
                    self.data@,
                ),
                a <= t <= b,
                a == self.indptr@[i as int],
                b == self.indptr@[i + 1],
                b <= self.indices@.len(),
                cols == self.indices@.subrange(a as int, b as int),
                vals == self.data@.subrange(a as int, b as int),
                self.indices@.len() == self.data@.len(),
                forall|u: int| a <= u < t ==> #[trigger] self.indices@[u] != j,
            decreases b - t,
        {
            if self.indices[t] == j {
                proof {
                    reveal(csr_well_formed);
                    assert(cols[t - a] == j);
                    let w = choose|w: int| 0 <= w < cols.len() && cols[w] == j;
                    if w != t - a {
                        assert(self.indices@[a + w] == j);
                        if w < t - a {
                            assert(self.indices@[a + w] != j);
                        } else {
                            assert(self.indptr@[i as int] == a);
                            assert(self.indices@[t as int] < self.indices@[a + w]);
                        }
                    }
                }
                return self.data[t];
            }
            t = t + 1;
        }
        proof {
            if cols.contains(j) {
                let w = choose|w: int| 0 <= w < cols.len() && cols[w] == j;
                assert(self.indices@[a + w] == j);
            }
        }
        0
    }

    /// The row offsets into the stored codes.
    pub fn indptr(&self) -> (r: &[usize])
        ensures
            r@ == self.spec_indptr(),
    {
        self.indptr.as_slice()
    }

    /// The column of each stored code.
    pub fn indices(&self) -> (r: &[usize])
        ensures
            r@ == self.spec_indices(),
    {
        self.indices.as_slice()
    }

    /// The stored codes.
    pub fn data(&self) -> (r: &[i128])
        ensures
            r@ == self.spec_data(),
    {
        self.data.as_slice()
    }
}

} // verus!
