//! Frequency (count) encoding of categorical columns: each value is replaced
//! by how often it occurred in its column at fit time.

use vstd::prelude::*;
use crate::encoder::label::same_texts;
use crate::encoder::onehot::{
    all_cells_known, column_of, first_unknown_cell, input_name, unknown_cell_text,
};
use crate::error::{
    is_not_fitted, is_shape_mismatch, is_unknown_category, DatarustError, Result,
};
use crate::matrix::{is_ragged, is_rectangular, row_lengths, CodeMatrix, StrMatrix};
use crate::names::default_name_text;
use crate::text::{
    decimal, is_strictly_sorted, lemma_sorted_no_duplicates, locate, sorted_unique, strictly_sorted,
    texts, usize_text,
};

verus! {

/// How to handle categories unseen at fit time.
#[derive(Debug, Clone, Copy, PartialEq, Eq, Structural)]
pub enum UnknownFrequency {
    /// Refuse them.
    Error,
    /// Give them frequency zero (the default).
    Zero,
}

impl Default for UnknownFrequency {
    fn default() -> (r: Self)
        ensures
            r == UnknownFrequency::Zero,
    {
        UnknownFrequency::Zero
    }
}

/// How often `v` occurs in `col`.
pub open spec fn occurrences(col: Seq<Seq<char>>, v: Seq<char>) -> nat
    decreases col.len(),
{
    if col.len() == 0 {
        0
    } else {
        occurrences(col.drop_last(), v) + if col.last() == v {
            1nat
        } else {
            0nat
        }
    }
}

/// The count recorded for `v` in a column with categories `cats` and counts
/// `counts`: the count of its category, or 0 for a value not seen.
pub open spec fn count_of(cats: Seq<Seq<char>>, counts: Seq<nat>, v: Seq<char>) -> nat {
    if cats.contains(v) {
        counts[choose|k: int| 0 <= k < cats.len() && cats[k] == v]
    } else {
        0
    }
}

/// The count codes of a row.
pub open spec fn count_row(
    cats: Seq<Seq<Seq<char>>>,
    counts: Seq<Seq<nat>>,
    row: Seq<Seq<char>>,
) -> Seq<i128> {
    Seq::new(cats.len(), |j: int| count_of(cats[j], counts[j], row[j]) as i128)
}

/// Replaces each category by its frequency at fit time: its count, or (when
/// normalized) its count divided by the number of rows fitted on. The
/// counts are kept here; the division is left to the caller, who reads the
/// row count with [`FrequencyEncoder::fit_rows`].
#[derive(Debug)]
pub struct FrequencyEncoder {
    normalized: bool,
    handle_unknown: UnknownFrequency,
    categories: Vec<Vec<String>>,
    counts: Vec<Vec<usize>>,
    n_rows: usize,
    fitted: bool,
}

impl FrequencyEncoder {
    #[verifier::type_invariant]
    spec fn inv(self) -> bool {
        &&& self.categories@.len() == self.counts@.len()
        &&& forall|j: int|
            0 <= j < self.categories@.len() ==> (#[trigger] self.categories@[j])@.len()
                == self.counts@[j]@.len() && strictly_sorted(texts(self.categories@[j]@))
    }

    /// The sorted distinct values of each fitted column.
    pub closed spec fn spec_categories(&self) -> Seq<Seq<Seq<char>>> {
        Seq::new(self.categories@.len(), |j: int| texts(self.categories@[j]@))
    }

    /// The count of each category of each fitted column.
    pub closed spec fn spec_counts(&self) -> Seq<Seq<nat>> {
        Seq::new(
            self.counts@.len(),
            |j: int| Seq::new(self.counts@[j]@.len(), |k: int| self.counts@[j]@[k] as nat),
        )
    }

    /// The number of rows fitted on.
    pub closed spec fn spec_fit_rows(&self) -> nat {
        self.n_rows as nat
    }

    /// Whether proportions rather than counts are asked for.
    pub closed spec fn spec_normalized(&self) -> bool {
        self.normalized
    }

    /// The policy for unseen categories.
    pub closed spec fn spec_handle_unknown(&self) -> UnknownFrequency {
        self.handle_unknown
    }

    /// Whether `fit` has run.
    pub closed spec fn spec_fitted(&self) -> bool {
        self.fitted
    }

    /// An unfitted encoder; `normalized` asks for proportions.
    pub fn new(normalized: bool) -> (r: Self)
        ensures
            r.spec_normalized() == normalized,
            r.spec_handle_unknown() == UnknownFrequency::Zero,
            !r.spec_fitted(),
            r.spec_categories().len() == 0,
    {
        let r = FrequencyEncoder {
            normalized,
            handle_unknown: UnknownFrequency::Zero,
            categories: Vec::new(),
            counts: Vec::new(),
            n_rows: 0,
            fitted: false,
        };
        assert(r.spec_categories() =~= Seq::<Seq<Seq<char>>>::empty());
        r
    }

    /// Whether proportions rather than counts are asked for.
    pub fn normalized(&self) -> (r: bool)
        ensures
            r == self.spec_normalized(),
    {
        self.normalized
    }

    /// Sets the policy for unseen categories.
    pub fn handle_unknown(self, strategy: UnknownFrequency) -> (r: Self)
        ensures
            r.spec_handle_unknown() == strategy,
            r.spec_normalized() == self.spec_normalized(),
            r.spec_fitted() == self.spec_fitted(),
            r.spec_categories() == self.spec_categories(),
            r.spec_counts() == self.spec_counts(),
            r.spec_fit_rows() == self.spec_fit_rows(),
    {
        proof {
            use_type_invariant(&self);
        }
        FrequencyEncoder { handle_unknown: strategy, ..self }
    }

    /// The number of rows fitted on: what normalized frequencies divide by.
    pub fn fit_rows(&self) -> (r: usize)
        ensures
            r == self.spec_fit_rows(),
    {
        self.n_rows
    }

    /// Whether `fit` has run.
    pub fn is_fitted(&self) -> (r: bool)
        ensures
            r == self.spec_fitted(),
    {
        self.fitted
    }

    /// The policy for unseen categories.
    pub fn unknown_policy(&self) -> (r: UnknownFrequency)
        ensures
            r == self.spec_handle_unknown(),
    {
        self.handle_unknown
    }

    /// The sorted distinct values of each fitted column.
    pub fn categories(&self) -> (r: &[Vec<String>])
        ensures
            Seq::new(r@.len(), |j: int| texts(r@[j]@)) == self.spec_categories(),
    {
        self.categories.as_slice()
    }

    /// The count of each category of each fitted column.
    pub fn counts(&self) -> (r: &[Vec<usize>])
        ensures
            Seq::new(r@.len(), |j: int| Seq::new(r@[j]@.len(), |k: int| r@[j]@[k] as nat))
                == self.spec_counts(),
    {
        self.counts.as_slice()
    }
}

/// The count of each category of `cats` in `col`.
fn count_column(col: &Vec<String>, cats: &Vec<String>) -> (r: Vec<usize>)
    requires
        strictly_sorted(texts(cats@)),
        forall|i: int| 0 <= i < col@.len() ==> texts(cats@).contains(#[trigger] col@[i]@),
    ensures
        r@.len() == cats@.len(),
        forall|k: int| 0 <= k < cats@.len() ==> #[trigger] r@[k] == occurrences(texts(col@), cats@[k]@),
{
    let m = cats.len();
    let n = col.len();
    let mut counts: Vec<usize> = Vec::new();
    for k in 0..m
        invariant
            counts@.len() == k,
            forall|t: int| 0 <= t < k ==> #[trigger] counts@[t] == 0,
    {
        counts.push(0);
    }
    let ghost cs = texts(cats@);
    proof {
        lemma_sorted_no_duplicates(cs);
    }
    for i in 0..n
        invariant
            n == col@.len(),
            m == cats@.len(),
            cs == texts(cats@),
            strictly_sorted(cs),
            crate::text::no_duplicates(cs),
            forall|a: int| 0 <= a < col@.len() ==> cs.contains(#[trigger] col@[a]@),
            counts@.len() == m,
            forall|k: int| 0 <= k < m ==> #[trigger] counts@[k] == occurrences(texts(col@).take(i as int), cs[k]),
            forall|k: int| 0 <= k < m ==> #[trigger] counts@[k] <= i,
    {
        let v = col[i].as_str();
        let slot = locate(cats.as_slice(), v);
        assert(cs.contains(col@[i as int]@));
        let p = slot.position;
        let ghost pre = texts(col@).take(i as int);
        let ghost post = texts(col@).take(i + 1);
        assert(post.drop_last() =~= pre);
        assert(post.last() == v@);
        assert forall|k: int| 0 <= k < m && k != p implies cs[k] != v@ by {
            if k < p {
                assert(cs[k] != cs[p as int]);
            } else {
                assert(cs[p as int] != cs[k]);
            }
        }
        let c = counts[p];
        counts.set(p, c + 1);
        assert forall|k: int| 0 <= k < m implies #[trigger] counts@[k] == occurrences(post, cs[k]) by {
            if k != p {
                assert(cs[k] != v@);
            }
        }
    }
    assert(texts(col@).take(n as int) =~= texts(col@));
    counts
}

impl FrequencyEncoder {
    /// `after` is `before` fitted on the cells `g`: settings kept, the rows
    /// counted, and for each column its sorted distinct values with how often
    /// each occurs.
    pub open spec fn fitted_on(before: FrequencyEncoder, after: FrequencyEncoder, g: Seq<Seq<Seq<char>>>) -> bool {
        &&& after.spec_fitted()
        &&& after.spec_normalized() == before.spec_normalized()
        &&& after.spec_handle_unknown() == before.spec_handle_unknown()
        &&& after.spec_fit_rows() == g.len()
        &&& after.spec_categories().len() == g[0].len()
        &&& forall|j: int|
            0 <= j < g[0].len() ==> strictly_sorted(#[trigger] after.spec_categories()[j])
                && same_texts(after.spec_categories()[j], column_of(g, j))
                && after.spec_counts()[j].len() == after.spec_categories()[j].len()
                && forall|k: int|
                0 <= k < after.spec_categories()[j].len() ==> #[trigger] after.spec_counts()[j][k]
                    == occurrences(column_of(g, j), after.spec_categories()[j][k])
    }

    /// Learns, for each column, its distinct values and how often each
    /// occurs.
    pub fn fit(&mut self, x: &StrMatrix) -> (r: Result<()>)
        ensures
            r is Ok,
            Self::fitted_on(*old(self), *final(self), x@),
    {
        proof {
            use_type_invariant(x);
        }
        let ncols = x.ncols();
        let nrows = x.nrows();
        let mut categories: Vec<Vec<String>> = Vec::new();
        let mut all_counts: Vec<Vec<usize>> = Vec::new();
        for j in 0..ncols
            invariant
                ncols == x@[0].len(),
                nrows == x@.len(),
                categories@.len() == j,
                all_counts@.len() == j,
                forall|t: int|
                    0 <= t < j ==> strictly_sorted(texts(#[trigger] categories@[t]@)) && same_texts(
                        texts(categories@[t]@),
                        column_of(x@, t),
                    ) && all_counts@[t]@.len() == categories@[t]@.len() && forall|k: int|
                        0 <= k < categories@[t]@.len() ==> #[trigger] all_counts@[t]@[k]
                            == occurrences(column_of(x@, t), categories@[t]@[k]@),
        {
            let col = x.column(j);
            let cats = sorted_unique(col.as_slice());
            assert(texts(col@) == column_of(x@, j as int));
            assert forall|i: int| 0 <= i < col@.len() implies texts(cats@).contains(#[trigger] col@[i]@) by {
                assert(texts(col@)[i] == col@[i]@);
                assert(texts(col@).contains(col@[i]@));
            }
            let counts = count_column(&col, &cats);
            categories.push(cats);
            all_counts.push(counts);
        }
        *self = FrequencyEncoder {
            normalized: self.normalized,
            handle_unknown: self.handle_unknown,
            categories,
            counts: all_counts,
            n_rows: nrows,
            fitted: true,
        };
        Ok(())
    }
}

impl FrequencyEncoder {
    /// What `transform` gives for the cells `g`: the refusals in the order
    /// they are checked, then the count codes of every row.
    pub open spec fn transform_outcome(enc: FrequencyEncoder, g: Seq<Seq<Seq<char>>>, r: Result<CodeMatrix>) -> bool {
        let cats = enc.spec_categories();
        let shape_ok = g[0].len() == cats.len();
        let known = enc.spec_handle_unknown() == UnknownFrequency::Zero || all_cells_known(cats, g);
        &&& !enc.spec_fitted() ==> is_not_fitted(r, "FrequencyEncoder"@)
        &&& enc.spec_fitted() && !shape_ok ==> is_shape_mismatch(
            r,
            decimal(cats.len()) + " categorical columns"@,
            decimal(g[0].len()) + " columns"@,
        )
        &&& enc.spec_fitted() && shape_ok && !known ==> exists|i: int, j: int|
            #[trigger] first_unknown_cell(cats, g, i, j) && is_unknown_category(
                r,
                unknown_cell_text(j, g[i][j]),
            )
        &&& enc.spec_fitted() && shape_ok && known ==> (r matches Ok(m) && m@ == Seq::new(
            g.len(),
            |i: int| count_row(cats, enc.spec_counts(), g[i]),
        ))
    }

    /// Replaces each value by the count of its category at fit time; an
    /// unseen value gives 0, or is refused under `UnknownFrequency::Error`.
    pub fn transform(&self, x: &StrMatrix) -> (r: Result<CodeMatrix>)
        ensures
            Self::transform_outcome(*self, x@, r),
    {
        proof {
            use_type_invariant(self);
            use_type_invariant(x);
        }
        if !self.fitted {
            return Err(DatarustError::NotFitted("FrequencyEncoder".to_owned()));
        }
        let ncats = self.categories.len();
        let xcols = x.ncols();
        if xcols != ncats {
            let mut expected = usize_text(ncats);
            expected.append(" categorical columns");
            let mut actual = usize_text(xcols);
            actual.append(" columns");
            return Err(DatarustError::ShapeMismatch { expected, actual });
        }
        let ghost cats = self.spec_categories();
        let ghost counts = self.spec_counts();
        let h = self.handle_unknown;
        let nrows = x.nrows();
        let mut rows: Vec<Vec<i128>> = Vec::new();
        for i in 0..nrows
            invariant
                nrows == x@.len(),
                ncats == cats.len(),
                ncats == self.categories@.len(),
                ncats == self.counts@.len(),
                ncats == x@[0].len(),
                is_rectangular(x@),
                cats == self.spec_categories(),
                counts == self.spec_counts(),
                self.spec_fitted(),
                h == self.spec_handle_unknown(),
                forall|j: int|
                    0 <= j < ncats ==> (#[trigger] self.categories@[j])@.len()
                        == self.counts@[j]@.len() && strictly_sorted(texts(self.categories@[j]@)),
                rows@.len() == i,
                forall|a: int| 0 <= a < i ==> (#[trigger] rows@[a])@ == count_row(cats, counts, x@[a]),
                h == UnknownFrequency::Error ==> forall|a: int, b: int|
                    0 <= a < i && 0 <= b < ncats ==> #[trigger] cats[b].contains(x@[a][b]),
        {
            let mut out_row: Vec<i128> = Vec::new();
            for j in 0..ncats
                invariant
                    nrows == x@.len(),
                    i < nrows,
                    ncats == cats.len(),
                    ncats == self.categories@.len(),
                    ncats == self.counts@.len(),
                    ncats == x@[0].len(),
                    is_rectangular(x@),
                    cats == self.spec_categories(),
                    counts == self.spec_counts(),
                    self.spec_fitted(),
                    h == self.spec_handle_unknown(),
                    forall|j: int|
                        0 <= j < ncats ==> (#[trigger] self.categories@[j])@.len()
                            == self.counts@[j]@.len() && strictly_sorted(texts(self.categories@[j]@)),
                    out_row@ == count_row(cats, counts, x@[i as int]).take(j as int),
                    h == UnknownFrequency::Error ==> forall|a: int, b: int|
                        0 <= a < i && 0 <= b < ncats ==> #[trigger] cats[b].contains(x@[a][b]),
                    h == UnknownFrequency::Error ==> forall|b: int|
                        0 <= b < j ==> #[trigger] cats[b].contains(x@[i as int][b]),
            {
                let v = x.get(i, j);
                let list = &self.categories[j];
                assert(texts(list@) == cats[j as int]);
                let slot = locate(list.as_slice(), v);
                let code: i128 = if slot.found {
                    let c = self.counts[j][slot.position];
                    proof {
                        let cs = cats[j as int];
                        let p = slot.position as int;
                        lemma_sorted_no_duplicates(cs);
                        let k = choose|k: int| 0 <= k < cs.len() && cs[k] == v@;
                        if k != p {
                            if k < p {
                                assert(cs[k] != cs[p]);
                            } else {
                                assert(cs[p] != cs[k]);
                            }
                        }
                        assert(count_of(cs, counts[j as int], v@) == c);
                    }
                    c as i128
                } else {
                    match h {
                        UnknownFrequency::Error => {
                            let mut m = "column ".to_owned();
                            let jt = usize_text(j);
                            m.append(jt.as_str());
                            m.append(" value '");
                            m.append(v);
                            m.append("'");
                            assert(first_unknown_cell(cats, x@, i as int, j as int));
                            return Err(DatarustError::UnknownCategory(m));
                        },
                        UnknownFrequency::Zero => 0,
                    }
                };
                let ghost prev = out_row@;
                out_row.push(code);
                assert(out_row@ =~= count_row(cats, counts, x@[i as int]).take(j + 1));
            }
            assert(count_row(cats, counts, x@[i as int]).take(ncats as int) =~= count_row(
                cats,
                counts,
                x@[i as int],
            ));
            rows.push(out_row);
        }
        proof {
            let g = Seq::new(rows@.len(), |a: int| rows@[a]@);
            assert(row_lengths(g) =~= Seq::new(g.len(), |a: int| ncats as int));
            assert(!is_ragged(row_lengths(g)));
            assert(g =~= Seq::new(x@.len(), |a: int| count_row(cats, counts, x@[a])));
            if h == UnknownFrequency::Error {
                assert(all_cells_known(cats, x@));
            }
        }
        CodeMatrix::new(rows)
    }

    /// Fits on `x`, then encodes it: every value gets the count of its own
    /// category.
    pub fn fit_transform(&mut self, x: &StrMatrix) -> (r: Result<CodeMatrix>)
        ensures
            final(self).spec_fitted(),
            final(self).spec_normalized() == old(self).spec_normalized(),
            final(self).spec_handle_unknown() == old(self).spec_handle_unknown(),
            final(self).spec_fit_rows() == x@.len(),
            r matches Ok(m) && m@ == Seq::new(
                x@.len(),
                |i: int| Seq::new(x@[0].len(), |j: int| occurrences(column_of(x@, j), x@[i][j]) as i128),
            ),
    {
        proof {
            use_type_invariant(x);
        }
        let _ = self.fit(x);
        proof {
            use_type_invariant(&*self);
            let cats = self.spec_categories();
            let counts = self.spec_counts();
            assert forall|i: int, j: int|
                0 <= i < x@.len() && 0 <= j < cats.len() implies #[trigger] cats[j].contains(
                x@[i][j],
            ) by {
                assert(column_of(x@, j)[i] == x@[i][j]);
                assert(column_of(x@, j).contains(x@[i][j]));
            }
            assert forall|i: int| 0 <= i < x@.len() implies count_row(cats, counts, x@[i]) =~= Seq::new(
                x@[0].len(),
                |j: int| occurrences(column_of(x@, j), x@[i][j]) as i128,
            ) by {
                assert(x@[i].len() == x@[0].len());
                assert forall|j: int| 0 <= j < x@[0].len() implies count_of(
                    cats[j],
                    counts[j],
                    x@[i][j],
                ) == occurrences(column_of(x@, j), x@[i][j]) by {
                    assert(cats[j].contains(x@[i][j]));
                    let k = choose|k: int| 0 <= k < cats[j].len() && cats[j][k] == x@[i][j];
                    assert(counts[j][k] == occurrences(column_of(x@, j), cats[j][k]));
                }
            }
        }
        let r = self.transform(x);
        proof {
            let cats = self.spec_categories();
            let counts = self.spec_counts();
            assert(Seq::new(x@.len(), |i: int| count_row(cats, counts, x@[i])) =~= Seq::new(
                x@.len(),
                |i: int| Seq::new(x@[0].len(), |j: int| occurrences(column_of(x@, j), x@[i][j]) as i128),
            ));
        }
        r
    }

    /// The output feature names: one per fitted column, its given name or
    /// the default `x` and its index.
    pub fn feature_names_out(&self, input_features: Option<&[String]>) -> (r: Vec<String>)
        ensures
            texts(r@) == Seq::new(
                self.spec_categories().len(),
                |j: int| input_name(
                    match input_features {
                        Some(fs) => Some(texts(fs@)),
                        None => None,
                    },
                    j,
                ),
            ),
    {
        let ghost input = match input_features {
            Some(fs) => Some(texts(fs@)),
            None => None,
        };
        let n = self.categories.len();
        let mut out: Vec<String> = Vec::new();
        for j in 0..n
            invariant
                n == self.spec_categories().len(),
                input == match input_features {
                    Some(fs) => Some(texts(fs@)),
                    None => None,
                },
                out@.len() == j,
                forall|t: int| 0 <= t < j ==> (#[trigger] out@[t])@ == input_name(input, t),
        {
            let name: String = match input_features {
                Some(fs) => if j < fs.len() {
                    fs[j].clone()
                } else {
                    default_name_text(j)
                },
                None => default_name_text(j),
            };
            out.push(name);
        }
        assert(texts(out@) =~= Seq::new(n as nat, |j: int| input_name(input, j)));
        out
    }
}

impl Default for FrequencyEncoder {
    fn default() -> (r: Self)
        ensures
            !r.spec_normalized(),
            r.spec_handle_unknown() == UnknownFrequency::Zero,
            !r.spec_fitted(),
            r.spec_categories().len() == 0,
    {
        Self::new(false)
    }
}

impl FrequencyEncoder {
    /// Rebuilds an encoder from a saved state: its settings, the categories
    /// and counts of each column, the number of rows fitted on, and whether
    /// it is fitted. A state no encoder can be in (categories not sorted and
    /// distinct, or counts not matching categories) gives `None`.
    pub fn restore(
        normalized: bool,
        handle_unknown: UnknownFrequency,
        categories: Vec<Vec<String>>,
        counts: Vec<Vec<usize>>,
        n_rows: usize,
        fitted: bool,
    ) -> (r: Option<Self>)
        ensures
            ({
                let cats = Seq::new(categories@.len(), |j: int| texts(categories@[j]@));
                let valid = categories@.len() == counts@.len() && forall|j: int|
                    0 <= j < cats.len() ==> strictly_sorted(#[trigger] cats[j]) && counts@[j]@.len()
                        == cats[j].len();
                &&& valid ==> (r matches Some(e) && e.spec_categories() == cats
                    && e.spec_counts() == Seq::new(
                    counts@.len(),
                    |j: int| Seq::new(counts@[j]@.len(), |k: int| counts@[j]@[k] as nat),
                ) && e.spec_normalized() == normalized && e.spec_handle_unknown() == handle_unknown
                    && e.spec_fit_rows() == n_rows && e.spec_fitted() == fitted)
                &&& !valid ==> r is None
            }),
    {
        let ghost cats = Seq::new(categories@.len(), |j: int| texts(categories@[j]@));
        let n = categories.len();
        if counts.len() != n {
            return None;
        }
        for j in 0..n
            invariant
                n == cats.len(),
                n == counts@.len(),
                cats == Seq::new(categories@.len(), |j: int| texts(categories@[j]@)),
                forall|k: int|
                    0 <= k < j ==> strictly_sorted(#[trigger] cats[k]) && counts@[k]@.len()
                        == cats[k].len(),
        {
            let list = &categories[j];
            assert(texts(list@) == cats[j as int]);
            if !is_strictly_sorted(list.as_slice()) || counts[j].len() != list.len() {
                return None;
            }
        }
        assert forall|j: int| 0 <= j < categories@.len() implies (#[trigger] categories@[j])@.len()
            == counts@[j]@.len() && strictly_sorted(texts(categories@[j]@)) by {
            assert(cats[j] == texts(categories@[j]@));
        }
        let e = FrequencyEncoder { normalized, handle_unknown, categories, counts, n_rows, fitted };
        assert(e.spec_categories() =~= cats);
        Some(e)
    }
}

/// The counts in `col` of the texts of `cats`, added up.
pub open spec fn total_occurrences(col: Seq<Seq<char>>, cats: Seq<Seq<char>>) -> nat
    decreases cats.len(),
{
    if cats.len() == 0 {
        0
    } else {
        total_occurrences(col, cats.drop_last()) + occurrences(col, cats.last())
    }
}

proof fn lemma_total_occurrences_push(col: Seq<Seq<char>>, v: Seq<char>, cats: Seq<Seq<char>>)
    ensures
        total_occurrences(col.push(v), cats) == total_occurrences(col, cats) + occurrences(cats, v),
    decreases cats.len(),
{
    assert(col.push(v).drop_last() =~= col);
    if cats.len() > 0 {
        lemma_total_occurrences_push(col, v, cats.drop_last());
    }
}

proof fn lemma_occurrences_once(cats: Seq<Seq<char>>, v: Seq<char>)
    requires
        crate::text::no_duplicates(cats),
        cats.contains(v),
    ensures
        occurrences(cats, v) == 1,
    decreases cats.len(),
{
    let rest = cats.drop_last();
    if cats.last() == v {
        assert forall|k: int| 0 <= k < rest.len() implies rest[k] != v by {
            assert(cats[k] != cats[cats.len() - 1]);
        }
        lemma_occurrences_absent(rest, v);
    } else {
        let k = choose|k: int| 0 <= k < cats.len() && cats[k] == v;
        assert(rest[k] == v);
        lemma_occurrences_once(rest, v);
    }
}

proof fn lemma_occurrences_absent(col: Seq<Seq<char>>, v: Seq<char>)
    requires
        forall|k: int| 0 <= k < col.len() ==> col[k] != v,
    ensures
        occurrences(col, v) == 0,
    decreases col.len(),
{
    if col.len() > 0 {
        lemma_occurrences_absent(col.drop_last(), v);
    }
}

proof fn lemma_total_occurrences_empty(cats: Seq<Seq<char>>)
    ensures
        total_occurrences(Seq::<Seq<char>>::empty(), cats) == 0,
    decreases cats.len(),
{
    if cats.len() > 0 {
        lemma_total_occurrences_empty(cats.drop_last());
    }
}

/// Over categories that hold each value of a column exactly once, the
/// column's counts add up to its number of rows: every row is counted once.
pub proof fn lemma_counts_sum_to_rows(col: Seq<Seq<char>>, cats: Seq<Seq<char>>)
    requires
        strictly_sorted(cats),
        forall|i: int| 0 <= i < col.len() ==> cats.contains(#[trigger] col[i]),
    ensures
        total_occurrences(col, cats) == col.len(),
    decreases col.len(),
{
    lemma_sorted_no_duplicates(cats);
    if col.len() == 0 {
        assert(col =~= Seq::<Seq<char>>::empty());
        lemma_total_occurrences_empty(cats);
    } else {
        let rest = col.drop_last();
        let v = col.last();
        assert forall|i: int| 0 <= i < rest.len() implies cats.contains(#[trigger] rest[i]) by {
            assert(rest[i] == col[i]);
        }
        lemma_counts_sum_to_rows(rest, cats);
        assert(rest.push(v) =~= col);
        lemma_total_occurrences_push(rest, v, cats);
        assert(cats.contains(col[col.len() - 1]));
        lemma_occurrences_once(cats, v);
    }
}

} // verus!
