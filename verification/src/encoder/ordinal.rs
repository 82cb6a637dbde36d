//! Ordinal encoding of categorical columns.

use vstd::prelude::*;
use crate::error::{
    is_invalid_config, is_invalid_input, is_not_fitted, is_shape_mismatch, is_unknown_category,
    is_unknown_label, DatarustError, Result,
};
use crate::encoder::label::same_texts;
use crate::encoder::onehot::{all_cells_known, column_of, first_unknown_cell, unknown_cell_text};
use crate::matrix::{is_ragged, is_rectangular, row_lengths, CodeMatrix, StrMatrix};
use crate::names::{default_input_names, default_name};
use crate::text::{
    decimal, lemma_sorted_no_duplicates, locate, no_duplicates, position_of, signed_decimal,
    signed_text, sorted_unique, strictly_sorted, text_eq, texts, usize_text,
};

verus! {

/// How to determine categories for ordinal encoding.
#[derive(Debug, Clone)]
pub enum OrdinalCategories {
    /// Infer categories from the training data (sorted per column).
    Auto,
    /// Explicit category order per column; every column's categories must be
    /// given, and each list determines the ordinal mapping.
    Manual(Vec<Vec<String>>),
}

/// Strategy for unknown categories during `transform`.
#[derive(Debug, Clone, Copy, PartialEq, Eq, Structural)]
pub enum OrdinalHandleUnknown {
    /// Raise an error on unknown categories (default).
    Error,
    /// Encode unknown categories as `-1`.
    UseNegOne,
}

/// The texts of each list of a list of lists.
pub open spec fn text_lists(v: Seq<Vec<String>>) -> Seq<Seq<Seq<char>>> {
    Seq::new(v.len(), |j: int| texts(v[j]@))
}

/// The code of `v` in a column with categories `cats`: its position, or
/// `-1` when it is not one of them.
pub open spec fn code_of(cats: Seq<Seq<char>>, v: Seq<char>, c: i128) -> bool {
    if cats.contains(v) {
        0 <= c < cats.len() && cats[c as int] == v
    } else {
        c == -1
    }
}

/// `m` holds the ordinal code of every cell of `g`.
pub open spec fn ordinal_codes(
    cats: Seq<Seq<Seq<char>>>,
    g: Seq<Seq<Seq<char>>>,
    m: Seq<Seq<i128>>,
) -> bool {
    &&& m.len() == g.len()
    &&& forall|i: int| 0 <= i < g.len() ==> (#[trigger] m[i]).len() == cats.len()
    &&& forall|i: int, j: int|
        0 <= i < g.len() && 0 <= j < cats.len() ==> #[trigger] code_of(cats[j], g[i][j], m[i][j])
}

/// Code `(i, j)` is, in row-major order, the first that names no category.
pub open spec fn first_bad_code(cats: Seq<Seq<Seq<char>>>, m: Seq<Seq<i128>>, i: int, j: int) -> bool {
    &&& 0 <= i < m.len()
    &&& 0 <= j < cats.len()
    &&& !(0 <= m[i][j] < cats[j].len())
    &&& forall|a: int, b: int|
        0 <= a < i && 0 <= b < cats.len() ==> 0 <= #[trigger] m[a][b] < cats[b].len()
    &&& forall|b: int| 0 <= b < j ==> 0 <= #[trigger] m[i][b] < cats[b].len()
}

/// Every code names a category of its column.
pub open spec fn all_codes_valid(cats: Seq<Seq<Seq<char>>>, m: Seq<Seq<i128>>) -> bool {
    forall|i: int, j: int|
        0 <= i < m.len() && 0 <= j < cats.len() ==> 0 <= #[trigger] m[i][j] < cats[j].len()
}

/// The categories that codes name.
pub open spec fn decode_codes(cats: Seq<Seq<Seq<char>>>, m: Seq<Seq<i128>>) -> Seq<Seq<Seq<char>>> {
    Seq::new(m.len(), |i: int| Seq::new(cats.len(), |j: int| cats[j][m[i][j] as int]))
}

/// List `j` is the first that holds some category twice.
pub open spec fn first_list_with_duplicate(lists: Seq<Seq<Seq<char>>>, j: int) -> bool {
    &&& 0 <= j < lists.len()
    &&& !no_duplicates(lists[j])
    &&& forall|k: int| 0 <= k < j ==> no_duplicates(#[trigger] lists[k])
}

/// Decoding the codes of a matrix whose every value is known gives the
/// matrix back.
pub proof fn lemma_ordinal_round_trip(
    cats: Seq<Seq<Seq<char>>>,
    g: Seq<Seq<Seq<char>>>,
    m: Seq<Seq<i128>>,
)
    requires
        forall|i: int| 0 <= i < g.len() ==> (#[trigger] g[i]).len() == cats.len(),
        all_cells_known(cats, g),
        ordinal_codes(cats, g, m),
    ensures
        all_codes_valid(cats, m),
        decode_codes(cats, m) == g,
{
    assert forall|i: int, j: int| 0 <= i < m.len() && 0 <= j < cats.len() implies 0 <= #[trigger] m[i][j]
        < cats[j].len() by {
        assert(code_of(cats[j], g[i][j], m[i][j]));
    }
    assert forall|i: int| 0 <= i < g.len() implies #[trigger] decode_codes(cats, m)[i] == g[i] by {
        assert forall|j: int| 0 <= j < cats.len() implies decode_codes(cats, m)[i][j] == g[i][j] by {
            assert(code_of(cats[j], g[i][j], m[i][j]));
        }
        assert(decode_codes(cats, m)[i] =~= g[i]);
    }
    assert(decode_codes(cats, m) =~= g);
}

/// What `transform` gives for `x` under the given fitted state.
pub open spec fn transform_outcome(
    fitted: bool,
    handle: OrdinalHandleUnknown,
    cats: Seq<Seq<Seq<char>>>,
    x: Seq<Seq<Seq<char>>>,
    r: Result<CodeMatrix>,
) -> bool {
    let shape_ok = x[0].len() == cats.len();
    let known = handle == OrdinalHandleUnknown::UseNegOne || all_cells_known(cats, x);
    &&& !fitted ==> is_not_fitted(r, "OrdinalEncoder"@)
    &&& fitted && !shape_ok ==> is_shape_mismatch(
        r,
        decimal(cats.len()) + " columns"@,
        decimal(x[0].len()) + " columns"@,
    )
    &&& fitted && shape_ok && !known ==> exists|i: int, j: int|
        #[trigger] first_unknown_cell(cats, x, i, j) && is_unknown_category(
            r,
            unknown_cell_text(j, x[i][j]),
        )
    &&& fitted && shape_ok && known ==> (r matches Ok(m) && ordinal_codes(cats, x, m@))
}

/// Whether a list holds some text twice; finds the earlier of such a pair.
fn has_duplicate(list: &Vec<String>) -> (r: bool)
    ensures
        r == !no_duplicates(texts(list@)),
{
    let n = list.len();
    for i in 0..n
        invariant
            n == list@.len(),
            forall|a: int, b: int| 0 <= a < i && a < b < n ==> list@[a]@ != list@[b]@,
    {
        for k in i + 1..n
            invariant
                n == list@.len(),
                i < n,
                forall|a: int, b: int| 0 <= a < i && a < b < n ==> list@[a]@ != list@[b]@,
                forall|b: int| i < b < k ==> list@[i as int]@ != list@[b]@,
        {
            if text_eq(list[i].as_str(), list[k].as_str()) {
                assert(texts(list@)[i as int] == texts(list@)[k as int]);
                return true;
            }
        }
    }
    proof {
        assert forall|a: int, b: int| 0 <= a < b < texts(list@).len() implies #[trigger] texts(
            list@,
        )[a] != #[trigger] texts(list@)[b] by {
            assert(list@[a]@ != list@[b]@);
        }
    }
    false
}

/// Encode categorical features as ordinal integers `0, 1, 2, ...`: each
/// cell becomes the position of its value among its column's categories.
pub struct OrdinalEncoder {
    categories: OrdinalCategories,
    handle_unknown: OrdinalHandleUnknown,
    category_lists: Vec<Vec<String>>,
    fitted: bool,
}

impl OrdinalEncoder {
    #[verifier::type_invariant]
    spec fn inv(self) -> bool {
        &&& forall|j: int|
            0 <= j < self.category_lists@.len() ==> no_duplicates(
                #[trigger] texts(self.category_lists@[j]@),
            )
        &&& !self.fitted ==> self.category_lists@.len() == 0
    }

    /// The categories of each column, in code order.
    pub closed spec fn spec_categories(&self) -> Seq<Seq<Seq<char>>> {
        text_lists(self.category_lists@)
    }

    /// Whether `fit` has succeeded.
    pub closed spec fn spec_fitted(&self) -> bool {
        self.fitted
    }

    /// The policy for unknown categories.
    pub closed spec fn spec_handle_unknown(&self) -> OrdinalHandleUnknown {
        self.handle_unknown
    }

    /// Whether categories are inferred from the data.
    pub closed spec fn spec_auto(&self) -> bool {
        self.categories is Auto
    }

    /// The categories given by the user, when they are.
    pub closed spec fn spec_manual(&self) -> Seq<Seq<Seq<char>>> {
        match self.categories {
            OrdinalCategories::Manual(lists) => text_lists(lists@),
            OrdinalCategories::Auto => seq![],
        }
    }

    /// An unfitted encoder with the given category setting.
    pub fn new(categories: OrdinalCategories) -> (r: Self)
        ensures
            !r.spec_fitted(),
            r.spec_categories().len() == 0,
            r.spec_handle_unknown() == OrdinalHandleUnknown::Error,
            r.spec_auto() == (categories is Auto),
            match categories {
                OrdinalCategories::Manual(lists) => r.spec_manual() == text_lists(lists@),
                OrdinalCategories::Auto => true,
            },
    {
        let r = OrdinalEncoder {
            categories,
            handle_unknown: OrdinalHandleUnknown::Error,
            category_lists: Vec::new(),
            fitted: false,
        };
        assert(r.spec_categories() =~= Seq::empty());
        r
    }

    /// Sets the policy for unknown categories.
    pub fn handle_unknown(self, h: OrdinalHandleUnknown) -> (r: Self)
        ensures
            r.spec_handle_unknown() == h,
            r.spec_fitted() == self.spec_fitted(),
            r.spec_categories() == self.spec_categories(),
            r.spec_auto() == self.spec_auto(),
            r.spec_manual() == self.spec_manual(),
    {
        proof {
            use_type_invariant(&self);
        }
        let OrdinalEncoder { categories, handle_unknown: _, category_lists, fitted } = self;
        OrdinalEncoder { categories, handle_unknown: h, category_lists, fitted }
    }

    /// The categories of each column, in code order.
    pub fn categories(&self) -> (r: &[Vec<String>])
        ensures
            text_lists(r@) == self.spec_categories(),
    {
        self.category_lists.as_slice()
    }

    /// What `fit` does on the cells `g`: inferred categories, or the user's
    /// lists once checked; a refused fit leaves the encoder as it was.
    pub open spec fn fit_outcome(before: OrdinalEncoder, after: OrdinalEncoder, g: Seq<Seq<Seq<char>>>, r: Result<()>) -> bool {
        &&& after.spec_handle_unknown() == before.spec_handle_unknown()
        &&& after.spec_auto() == before.spec_auto()
        &&& after.spec_manual() == before.spec_manual()
        &&& before.spec_auto() ==> r is Ok && after.spec_fitted()
                && after.spec_categories().len() == g[0].len() && forall|j: int|
                0 <= j < g[0].len() ==> strictly_sorted(
                    #[trigger] after.spec_categories()[j],
                ) && same_texts(after.spec_categories()[j], column_of(g, j))
        &&& !before.spec_auto() && before.spec_manual().len() != g[0].len()
                ==> is_shape_mismatch(
                r,
                decimal(g[0].len()) + " category lists"@,
                decimal(before.spec_manual().len()) + " lists"@,
            )
        &&& !before.spec_auto() && before.spec_manual().len() == g[0].len() && (exists|j: int|
                0 <= j < g[0].len() && !no_duplicates(#[trigger] before.spec_manual()[j]))
                ==> exists|j: int|
                #[trigger] first_list_with_duplicate(before.spec_manual(), j)
                    && is_invalid_config(r, "duplicate category in column "@ + decimal(j as nat))
        &&& !before.spec_auto() && before.spec_manual().len() == g[0].len() && (forall|j: int|
                0 <= j < g[0].len() ==> no_duplicates(#[trigger] before.spec_manual()[j]))
                ==> r is Ok && after.spec_fitted() && after.spec_categories()
                == before.spec_manual()
        &&& r is Err ==> after.spec_categories() == before.spec_categories()
                && after.spec_fitted() == before.spec_fitted()
    }

    /// Learns the categories: inferred (sorted distinct values per column),
    /// or checked and taken from the user's lists. A refused fit leaves the
    /// encoder as it was.
    pub fn fit(&mut self, x: &StrMatrix) -> (r: Result<()>)
        ensures
            Self::fit_outcome(*old(self), *final(self), x@, r),
    {
        proof {
            use_type_invariant(&*self);
            use_type_invariant(x);
        }
        let ncols = x.ncols();
        match &self.categories {
            OrdinalCategories::Auto => {
                let mut lists: Vec<Vec<String>> = Vec::new();
                for j in 0..ncols
                    invariant
                        ncols == x@[0].len(),
                        lists@.len() == j,
                        forall|k: int|
                            0 <= k < j ==> strictly_sorted(#[trigger] texts(lists@[k]@))
                                && same_texts(texts(lists@[k]@), column_of(x@, k)),
                {
                    let col = x.column(j);
                    let cats = sorted_unique(col.as_slice());
                    lists.push(cats);
                }
                proof {
                    assert forall|j: int| 0 <= j < lists@.len() implies no_duplicates(
                        #[trigger] texts(lists@[j]@),
                    ) by {
                        lemma_sorted_no_duplicates(texts(lists@[j]@));
                    }
                }
                self.fitted = true;
                self.category_lists = lists;
                Ok(())
            },
            OrdinalCategories::Manual(lists) => {
                let nl = lists.len();
                if nl != ncols {
                    let mut expected = usize_text(ncols);
                    expected.append(" category lists");
                    let mut actual = usize_text(nl);
                    actual.append(" lists");
                    return Err(DatarustError::ShapeMismatch { expected, actual });
                }
                let ghost ms = text_lists(lists@);
                for j in 0..nl
                    invariant
                        nl == lists@.len(),
                        nl == x@[0].len(),
                        ms == text_lists(lists@),
                        !self.spec_auto(),
                        self.spec_manual() == ms,
                        self == old(self),
                        forall|k: int| 0 <= k < j ==> no_duplicates(#[trigger] ms[k]),
                {
                    if has_duplicate(&lists[j]) {
                        let mut m = "duplicate category in column ".to_owned();
                        let jt = usize_text(j);
                        m.append(jt.as_str());
                        assert(first_list_with_duplicate(ms, j as int));
                        return Err(DatarustError::InvalidConfig(m));
                    }
                }
                let mut copy: Vec<Vec<String>> = Vec::new();
                for j in 0..nl
                    invariant
                        nl == lists@.len(),
                        copy@.len() == j,
                        forall|k: int| 0 <= k < j ==> texts((#[trigger] copy@[k])@) == texts(lists@[k]@),
                {
                    let src = &lists[j];
                    let m = src.len();
                    let mut row: Vec<String> = Vec::new();
                    for t in 0..m
                        invariant
                            m == src@.len(),
                            row@.len() == t,
                            forall|a: int| 0 <= a < t ==> (#[trigger] row@[a])@ == src@[a]@,
                    {
                        row.push(src[t].clone());
                    }
                    assert(texts(row@) =~= texts(src@));
                    copy.push(row);
                }
                assert(text_lists(copy@) =~= ms);
                assert forall|j: int| 0 <= j < copy@.len() implies no_duplicates(
                    #[trigger] texts(copy@[j]@),
                ) by {
                    assert(texts(copy@[j]@) == ms[j]);
                }
                self.fitted = true;
                self.category_lists = copy;
                Ok(())
            },
        }
    }
}

impl OrdinalEncoder {
    /// Replaces every cell by the position of its value among its column's
    /// categories; unknown values are refused or encoded as `-1`.
    pub fn transform(&self, x: &StrMatrix) -> (r: Result<CodeMatrix>)
        ensures
            transform_outcome(
                self.spec_fitted(),
                self.spec_handle_unknown(),
                self.spec_categories(),
                x@,
                r,
            ),
    {
        proof {
            use_type_invariant(self);
            use_type_invariant(x);
        }
        if !self.fitted {
            return Err(DatarustError::NotFitted("OrdinalEncoder".to_owned()));
        }
        let ncats = self.category_lists.len();
        let xcols = x.ncols();
        if xcols != ncats {
            let mut expected = usize_text(ncats);
            expected.append(" columns");
            let mut actual = usize_text(xcols);
            actual.append(" columns");
            return Err(DatarustError::ShapeMismatch { expected, actual });
        }
        let ghost cats = self.spec_categories();
        let h = self.handle_unknown;
        let nrows = x.nrows();
        let mut rows: Vec<Vec<i128>> = Vec::new();
        for i in 0..nrows
            invariant
                nrows == x@.len(),
                ncats == cats.len(),
                ncats == self.category_lists@.len(),
                ncats == x@[0].len(),
                ncats >= 1,
                is_rectangular(x@),
                cats == self.spec_categories(),
                self.spec_fitted(),
                h == self.spec_handle_unknown(),
                rows@.len() == i,
                forall|a: int| 0 <= a < i ==> (#[trigger] rows@[a])@.len() == ncats,
                forall|a: int, b: int|
                    0 <= a < i && 0 <= b < ncats ==> #[trigger] code_of(cats[b], x@[a][b], rows@[a]@[b]),
                h == OrdinalHandleUnknown::Error ==> forall|a: int, b: int|
                    0 <= a < i && 0 <= b < ncats ==> #[trigger] cats[b].contains(x@[a][b]),
        {
            let mut out_row: Vec<i128> = Vec::new();
            for j in 0..ncats
                invariant
                    nrows == x@.len(),
                    i < nrows,
                    ncats == cats.len(),
                    ncats == self.category_lists@.len(),
                    ncats == x@[0].len(),
                    is_rectangular(x@),
                    cats == self.spec_categories(),
                    self.spec_fitted(),
                    h == self.spec_handle_unknown(),
                    out_row@.len() == j,
                    forall|b: int| 0 <= b < j ==> #[trigger] code_of(cats[b], x@[i as int][b], out_row@[b]),
                    h == OrdinalHandleUnknown::Error ==> forall|a: int, b: int|
                        0 <= a < i && 0 <= b < ncats ==> #[trigger] cats[b].contains(x@[a][b]),
                    h == OrdinalHandleUnknown::Error ==> forall|b: int|
                        0 <= b < j ==> #[trigger] cats[b].contains(x@[i as int][b]),
            {
                let v = x.get(i, j);
                let list = self.category_lists[j].as_slice();
                assert(texts(list@) == cats[j as int]);
                match position_of(list, v) {
                    Some(k) => {
                        assert(texts(list@)[k as int] == v@);
                        out_row.push(k as i128);
                    },
                    None => {
                        match h {
                            OrdinalHandleUnknown::Error => {
                                let mut m = "column ".to_owned();
                                let jt = usize_text(j);
                                m.append(jt.as_str());
                                m.append(" value '");
                                m.append(v);
                                m.append("'");
                                assert(first_unknown_cell(cats, x@, i as int, j as int));
                                return Err(DatarustError::UnknownCategory(m));
                            },
                            OrdinalHandleUnknown::UseNegOne => {
                                out_row.push(-1);
                            },
                        }
                    },
                }
            }
            rows.push(out_row);
        }
        proof {
            let g = Seq::new(rows@.len(), |a: int| rows@[a]@);
            assert(row_lengths(g) =~= Seq::new(g.len(), |a: int| ncats as int));
            assert(!is_ragged(row_lengths(g)));
            assert forall|a: int, b: int| 0 <= a < x@.len() && 0 <= b < cats.len() implies #[trigger] code_of(
                cats[b],
                x@[a][b],
                g[a][b],
            ) by {
                assert(code_of(cats[b], x@[a][b], rows@[a]@[b]));
            }
            if h == OrdinalHandleUnknown::Error {
                assert(all_cells_known(cats, x@));
            }
        }
        CodeMatrix::new(rows)
    }

    /// Fits on `x`, then encodes it.
    pub fn fit_transform(&mut self, x: &StrMatrix) -> (r: Result<CodeMatrix>)
        ensures
            final(self).spec_handle_unknown() == old(self).spec_handle_unknown(),
            final(self).spec_auto() == old(self).spec_auto(),
            final(self).spec_manual() == old(self).spec_manual(),
            old(self).spec_auto() ==> final(self).spec_fitted()
                && final(self).spec_categories().len() == x@[0].len() && (forall|j: int|
                0 <= j < x@[0].len() ==> strictly_sorted(
                    #[trigger] final(self).spec_categories()[j],
                ) && same_texts(final(self).spec_categories()[j], column_of(x@, j))) && (r matches Ok(
                m,
            ) && ordinal_codes(final(self).spec_categories(), x@, m@)),
            !old(self).spec_auto() && old(self).spec_manual().len() != x@[0].len()
                ==> is_shape_mismatch(
                r,
                decimal(x@[0].len()) + " category lists"@,
                decimal(old(self).spec_manual().len()) + " lists"@,
            ),
            !old(self).spec_auto() && old(self).spec_manual().len() == x@[0].len() && (exists|j: int|
                0 <= j < x@[0].len() && !no_duplicates(#[trigger] old(self).spec_manual()[j]))
                ==> exists|j: int|
                #[trigger] first_list_with_duplicate(old(self).spec_manual(), j)
                    && is_invalid_config(r, "duplicate category in column "@ + decimal(j as nat)),
            !old(self).spec_auto() && old(self).spec_manual().len() == x@[0].len() && (forall|j: int|
                0 <= j < x@[0].len() ==> no_duplicates(#[trigger] old(self).spec_manual()[j]))
                ==> final(self).spec_fitted() && final(self).spec_categories()
                == old(self).spec_manual() && transform_outcome(
                true,
                final(self).spec_handle_unknown(),
                final(self).spec_categories(),
                x@,
                r,
            ),
    {
        proof {
            use_type_invariant(x);
        }
        match self.fit(x) {
            Err(e) => Err(e),
            Ok(()) => {
                proof {
                    if self.spec_auto() {
                        let cats = self.spec_categories();
                        assert forall|i: int, j: int|
                            0 <= i < x@.len() && 0 <= j < cats.len() implies #[trigger] cats[j].contains(
                            x@[i][j],
                        ) by {
                            assert(column_of(x@, j)[i] == x@[i][j]);
                            assert(column_of(x@, j).contains(x@[i][j]));
                        }
                    }
                }
                self.transform(x)
            },
        }
    }

    /// Replaces every code by the category it names.
    pub fn inverse_transform(&self, y: &CodeMatrix) -> (r: Result<StrMatrix>)
        ensures
            ({
                let cats = self.spec_categories();
                let shape_ok = y@[0].len() == cats.len();
                &&& !self.spec_fitted() ==> is_not_fitted(r, "OrdinalEncoder"@)
                &&& self.spec_fitted() && !shape_ok ==> is_shape_mismatch(
                    r,
                    decimal(cats.len()) + " columns"@,
                    decimal(y@[0].len()) + " columns"@,
                )
                &&& self.spec_fitted() && shape_ok && !all_codes_valid(cats, y@) ==> exists|
                    i: int,
                    j: int,
                |
                    #[trigger] first_bad_code(cats, y@, i, j) && is_unknown_label(
                        r,
                        "index "@ + signed_decimal(y@[i][j] as int) + " out of range for column "@
                            + decimal(j as nat),
                    )
                &&& self.spec_fitted() && shape_ok && all_codes_valid(cats, y@) && y@.len()
                    * cats.len() > usize::MAX ==> is_invalid_input(r, "matrix too large"@)
                &&& self.spec_fitted() && shape_ok && all_codes_valid(cats, y@) && y@.len()
                    * cats.len() <= usize::MAX ==> (r matches Ok(s) && s@ == decode_codes(cats, y@))
            }),
    {
        proof {
            use_type_invariant(self);
            use_type_invariant(y);
        }
        if !self.fitted {
            return Err(DatarustError::NotFitted("OrdinalEncoder".to_owned()));
        }
        let ncats = self.category_lists.len();
        let ycols = y.ncols();
        if ycols != ncats {
            let mut expected = usize_text(ncats);
            expected.append(" columns");
            let mut actual = usize_text(ycols);
            actual.append(" columns");
            return Err(DatarustError::ShapeMismatch { expected, actual });
        }
        let ghost cats = self.spec_categories();
        let nrows = y.nrows();
        let mut out: Vec<Vec<String>> = Vec::new();
        for i in 0..nrows
            invariant
                nrows == y@.len(),
                ncats == cats.len(),
                ncats == self.category_lists@.len(),
                ncats == y@[0].len(),
                ncats >= 1,
                is_rectangular(y@),
                cats == self.spec_categories(),
                self.spec_fitted(),
                out@.len() == i,
                forall|a: int, b: int|
                    0 <= a < i && 0 <= b < ncats ==> 0 <= #[trigger] y@[a][b] < cats[b].len(),
                forall|a: int| 0 <= a < i ==> texts((#[trigger] out@[a])@) == decode_codes(cats, y@)[a],
        {
            let mut row: Vec<String> = Vec::new();
            for j in 0..ncats
                invariant
                    nrows == y@.len(),
                    i < nrows,
                    ncats == cats.len(),
                    ncats == self.category_lists@.len(),
                    ncats == y@[0].len(),
                    is_rectangular(y@),
                    cats == self.spec_categories(),
                    self.spec_fitted(),
                    row@.len() == j,
                    forall|a: int, b: int|
                        0 <= a < i && 0 <= b < ncats ==> 0 <= #[trigger] y@[a][b] < cats[b].len(),
                    forall|b: int| 0 <= b < j ==> 0 <= #[trigger] y@[i as int][b] < cats[b].len(),
                    forall|b: int| 0 <= b < j ==> (#[trigger] row@[b])@ == cats[b][y@[i as int][b] as int],
            {
                let idx = y.get(i, j);
                let list = &self.category_lists[j];
                assert(texts(list@) == cats[j as int]);
                if idx < 0 || idx >= list.len() as i128 {
                    let mut m = "index ".to_owned();
                    let it = signed_text(idx);
                    m.append(it.as_str());
                    m.append(" out of range for column ");
                    let jt = usize_text(j);
                    m.append(jt.as_str());
                    assert(first_bad_code(cats, y@, i as int, j as int));
                    return Err(DatarustError::UnknownLabel(m));
                }
                row.push(list[idx as usize].clone());
            }
            assert(texts(row@) =~= decode_codes(cats, y@)[i as int]);
            out.push(row);
        }
        proof {
            let g = Seq::new(out@.len(), |a: int| texts(out@[a]@));
            assert(g =~= decode_codes(cats, y@));
            assert(row_lengths(g) =~= Seq::new(g.len(), |a: int| ncats as int));
            assert(!is_ragged(row_lengths(g)));
        }
        StrMatrix::new(out)
    }
}

impl OrdinalEncoder {
    /// Whether `fit` has succeeded.
    pub fn is_fitted(&self) -> (r: bool)
        ensures
            r == self.spec_fitted(),
    {
        self.fitted
    }

    /// The policy for unknown categories.
    pub fn unknown_policy(&self) -> (r: OrdinalHandleUnknown)
        ensures
            r == self.spec_handle_unknown(),
    {
        self.handle_unknown
    }

    /// How categories are chosen: inferred, or the user's lists.
    pub fn category_setting(&self) -> (r: &OrdinalCategories)
        ensures
            (*r is Auto) == self.spec_auto(),
            match *r {
                OrdinalCategories::Manual(lists) => self.spec_manual() == text_lists(lists@),
                OrdinalCategories::Auto => true,
            },
    {
        &self.categories
    }

    /// The output feature names: one code column per input column, so the
    /// given names as they are, or the defaults `x0, x1, ...` for the fitted
    /// columns.
    pub fn feature_names_out(&self, input_features: Option<&[String]>) -> (r: Vec<String>)
        ensures
            texts(r@) == match input_features {
                Some(fs) => texts(fs@),
                None => Seq::new(self.spec_categories().len(), |j: int| default_name(j as nat)),
            },
    {
        match input_features {
            Some(fs) => {
                let m = fs.len();
                let mut v: Vec<String> = Vec::new();
                for j in 0..m
                    invariant
                        m == fs@.len(),
                        v@.len() == j,
                        forall|k: int| 0 <= k < j ==> (#[trigger] v@[k])@ == fs@[k]@,
                {
                    v.push(fs[j].clone());
                }
                assert(texts(v@) =~= texts(fs@));
                v
            },
            None => {
                let v = default_input_names(self.category_lists.len());
                assert(texts(v@) =~= Seq::new(
                    self.spec_categories().len(),
                    |j: int| default_name(j as nat),
                ));
                v
            },
        }
    }
}

impl OrdinalEncoder {
    /// Rebuilds an encoder from a saved state: its category setting, its
    /// unknown policy, its category lists, and whether it is fitted. A state
    /// no encoder can be in (a list with a category twice, or lists without
    /// a fit) gives `None`.
    pub fn restore(
        categories: OrdinalCategories,
        handle_unknown: OrdinalHandleUnknown,
        category_lists: Vec<Vec<String>>,
        fitted: bool,
    ) -> (r: Option<Self>)
        ensures
            ({
                let lists = text_lists(category_lists@);
                let valid = (forall|j: int| 0 <= j < lists.len() ==> no_duplicates(#[trigger] lists[j]))
                    && (fitted || lists.len() == 0);
                &&& valid ==> (r matches Some(e) && e.spec_categories() == lists
                    && e.spec_handle_unknown() == handle_unknown && e.spec_fitted() == fitted
                    && e.spec_auto() == (categories is Auto) && match categories {
                    OrdinalCategories::Manual(m) => e.spec_manual() == text_lists(m@),
                    OrdinalCategories::Auto => true,
                })
                &&& !valid ==> r is None
            }),
    {
        let ghost lists = text_lists(category_lists@);
        let n = category_lists.len();
        if !fitted && n > 0 {
            return None;
        }
        for j in 0..n
            invariant
                n == lists.len(),
                lists == text_lists(category_lists@),
                forall|k: int| 0 <= k < j ==> no_duplicates(#[trigger] lists[k]),
        {
            assert(texts(category_lists@[j as int]@) == lists[j as int]);
            if has_duplicate(&category_lists[j]) {
                return None;
            }
        }
        assert forall|j: int| 0 <= j < category_lists@.len() implies no_duplicates(
            #[trigger] texts(category_lists@[j]@),
        ) by {
            assert(lists[j] == texts(category_lists@[j]@));
        }
        Some(OrdinalEncoder { categories, handle_unknown, category_lists, fitted })
    }
}

} // verus!
