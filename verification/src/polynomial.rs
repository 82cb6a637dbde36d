//! Polynomial and interaction features: the combinations of input features
//! whose products form the output columns, and their names.

use vstd::prelude::*;
use crate::error::{is_invalid_config, DatarustError, Result};
use crate::names::{default_input_names, default_name, default_name_text};
use crate::text::{decimal, texts, usize_text};

verus! {

/// `p` followed by each sequence of `ss`.
pub open spec fn prefixed(p: Seq<usize>, ss: Seq<Seq<usize>>) -> Seq<Seq<usize>> {
    Seq::new(ss.len(), |t: int| p + ss[t])
}

/// All non-decreasing sequences of length `d` over `start..n`, in
/// lexicographic order (as `itertools.combinations_with_replacement`).
pub open spec fn cwr(n: nat, d: nat, start: nat) -> Seq<Seq<usize>>
    decreases d, n - start,
{
    if d == 0 {
        seq![Seq::<usize>::empty()]
    } else if start >= n {
        Seq::<Seq<usize>>::empty()
    } else {
        prefixed(seq![start as usize], cwr(n, (d - 1) as nat, start)) + cwr(n, d, start + 1)
    }
}

/// The combinations of degree `d` that are output.
pub open spec fn selected(cs: Seq<Seq<usize>>, d: nat, include_bias: bool, interaction_only: bool) -> Seq<
    Seq<usize>,
>
    decreases cs.len(),
{
    if cs.len() == 0 {
        cs
    } else {
        let keep = if d == 0 {
            include_bias
        } else {
            !interaction_only || cs.last().no_duplicates()
        };
        selected(cs.drop_last(), d, include_bias, interaction_only) + if keep {
            seq![cs.last()]
        } else {
            Seq::<Seq<usize>>::empty()
        }
    }
}

/// The output combinations of all degrees below `m`, lowest degree first.
pub open spec fn combos_below(n: nat, m: nat, include_bias: bool, interaction_only: bool) -> Seq<
    Seq<usize>,
>
    decreases m,
{
    if m == 0 {
        Seq::<Seq<usize>>::empty()
    } else {
        combos_below(n, (m - 1) as nat, include_bias, interaction_only) + selected(
            cwr(n, (m - 1) as nat, 0),
            (m - 1) as nat,
            include_bias,
            interaction_only,
        )
    }
}

proof fn lemma_prefixed_add(p: Seq<usize>, a: Seq<Seq<usize>>, b: Seq<Seq<usize>>)
    ensures
        prefixed(p, a + b) == prefixed(p, a) + prefixed(p, b),
{
    assert(prefixed(p, a + b) =~= prefixed(p, a) + prefixed(p, b));
}

proof fn lemma_prefixed_twice(p: Seq<usize>, q: Seq<usize>, a: Seq<Seq<usize>>)
    ensures
        prefixed(p, prefixed(q, a)) == prefixed(p + q, a),
{
    assert forall|t: int| 0 <= t < a.len() implies #[trigger] prefixed(p, prefixed(q, a))[t]
        == prefixed(p + q, a)[t] by {
        assert(p + (q + a[t]) =~= (p + q) + a[t]);
    }
    assert(prefixed(p, prefixed(q, a)) =~= prefixed(p + q, a));
}

/// Generate polynomial and interaction features: for degree 2 and inputs
/// `[x1, x2]` the output (with bias) is `[1, x1, x2, x1^2, x1*x2, x2^2]`.
#[derive(Debug)]
pub struct PolynomialFeatures {
    degree: usize,
    include_bias: bool,
    interaction_only: bool,
    combinations: Vec<Vec<usize>>,
    input_n_features: usize,
    fitted: bool,
}

/// Adds to `out` the non-decreasing completions of `current[..pos]` of length
/// `d` whose remaining entries are drawn from `start..n`.
fn recurse(
    n: usize,
    d: usize,
    pos: usize,
    start: usize,
    current: &mut Vec<usize>,
    out: &mut Vec<Vec<usize>>,
)
    requires
        pos <= d,
        old(current)@.len() == d,
        start <= n,
    ensures
        final(current)@.len() == d,
        final(current)@.take(pos as int) == old(current)@.take(pos as int),
        final(out)@.len() >= old(out)@.len(),
        forall|t: int| 0 <= t < old(out)@.len() ==> #[trigger] final(out)@[t] == old(out)@[t],
        Seq::new(final(out)@.len(), |t: int| final(out)@[t]@) == Seq::new(
            old(out)@.len(),
            |t: int| old(out)@[t]@,
        ) + prefixed(old(current)@.take(pos as int), cwr(n as nat, (d - pos) as nat, start as nat)),
    decreases d - pos, n - start,
{
    let ghost out0 = Seq::new(out@.len(), |t: int| out@[t]@);
    let ghost p = current@.take(pos as int);
    if pos == d {
        let c = current.clone();
        assert(c@ == current@) by {
            assert forall|t: int| 0 <= t < c@.len() implies c@[t] == current@[t] by {
                assert(cloned::<usize>(current@[t], c@[t]));
            }
            assert(c@ =~= current@);
        }
        out.push(c);
        assert(current@.take(pos as int) =~= current@);
        assert(Seq::new(out@.len(), |t: int| out@[t]@) =~= out0 + prefixed(p, cwr(n as nat, 0, start as nat)));
        return;
    }
    let ghost k = (d - pos) as nat;
    let mut i = start;
    while i < n
        invariant
            pos < d,
            start <= i <= n,
            k == d - pos,
            current@.len() == d,
            current@.take(pos as int) == p,
            out@.len() >= out0.len(),
            out0 == Seq::new(old(out)@.len(), |t: int| old(out)@[t]@),
            forall|t: int| 0 <= t < old(out)@.len() ==> #[trigger] out@[t] == old(out)@[t],
            out0 + prefixed(p, cwr(n as nat, k, start as nat)) == Seq::new(
                out@.len(),
                |t: int| out@[t]@,
            ) + prefixed(p, cwr(n as nat, k, i as nat)),
        decreases n - i,
    {
        let ghost before = Seq::new(out@.len(), |t: int| out@[t]@);
        let ghost before_out = out@;
        current.set(pos, i);
        let ghost q = current@.take(pos + 1);
        assert(q =~= p + seq![i]);
        recurse(n, d, pos + 1, i, current, out);
        proof {
            let a = cwr(n as nat, (k - 1) as nat, i as nat);
            let rest = cwr(n as nat, k, (i + 1) as nat);
            assert(cwr(n as nat, k, i as nat) == prefixed(seq![i], a) + rest);
            lemma_prefixed_add(p, prefixed(seq![i], a), rest);
            lemma_prefixed_twice(p, seq![i], a);
            assert(current@.take(pos as int) =~= current@.take(pos + 1).take(pos as int));
            assert forall|t: int| 0 <= t < old(out)@.len() implies #[trigger] out@[t] == old(out)@[t] by {
                assert(out@[t] == before_out[t]);
            }
        }
        i = i + 1;
    }
    assert(cwr(n as nat, k, n as nat) =~= Seq::<Seq<usize>>::empty());
    assert(prefixed(p, cwr(n as nat, k, n as nat)) =~= Seq::<Seq<usize>>::empty());
}

/// The index lists of a list of vectors.
pub open spec fn index_lists(v: Seq<Vec<usize>>) -> Seq<Seq<usize>> {
    Seq::new(v.len(), |t: int| v[t]@)
}

/// Does `c` hold some index twice?
fn has_repeat(c: &Vec<usize>) -> (r: bool)
    ensures
        r == !c@.no_duplicates(),
{
    let m = c.len();
    for a in 0..m
        invariant
            m == c@.len(),
            forall|x: int, y: int| 0 <= x < a && x < y < m ==> c@[x] != c@[y],
    {
        for b in a + 1..m
            invariant
                m == c@.len(),
                a < m,
                forall|x: int, y: int| 0 <= x < a && x < y < m ==> c@[x] != c@[y],
                forall|y: int| a < y < b ==> c@[a as int] != c@[y],
        {
            if c[a] == c[b] {
                return true;
            }
        }
    }
    false
}

impl PolynomialFeatures {
    /// The configured degree.
    pub closed spec fn spec_degree(&self) -> nat {
        self.degree as nat
    }

    /// Whether the constant feature is output.
    pub closed spec fn spec_include_bias(&self) -> bool {
        self.include_bias
    }

    /// Whether only products of distinct features are output.
    pub closed spec fn spec_interaction_only(&self) -> bool {
        self.interaction_only
    }

    /// The output combinations learned by `fit`.
    pub closed spec fn spec_combinations(&self) -> Seq<Seq<usize>> {
        index_lists(self.combinations@)
    }

    /// The number of input features seen by `fit`.
    pub closed spec fn spec_input_n_features(&self) -> nat {
        self.input_n_features as nat
    }

    /// Whether `fit` has succeeded.
    pub closed spec fn spec_fitted(&self) -> bool {
        self.fitted
    }

    /// Whether `fit` has succeeded.
    pub fn is_fitted(&self) -> (r: bool)
        ensures
            r == self.spec_fitted(),
    {
        self.fitted
    }

    /// Whether the constant feature is output.
    pub fn includes_bias(&self) -> (r: bool)
        ensures
            r == self.spec_include_bias(),
    {
        self.include_bias
    }

    /// Whether only products of distinct features are output.
    pub fn is_interaction_only(&self) -> (r: bool)
        ensures
            r == self.spec_interaction_only(),
    {
        self.interaction_only
    }

    /// The number of input features seen by `fit`.
    pub fn input_n_features(&self) -> (r: usize)
        ensures
            r == self.spec_input_n_features(),
    {
        self.input_n_features
    }

    /// The feature indices whose product forms each output feature.
    pub fn combinations(&self) -> (r: &[Vec<usize>])
        ensures
            index_lists(r@) == self.spec_combinations(),
    {
        self.combinations.as_slice()
    }

    /// Unfitted features of the given degree, with bias, all products.
    pub fn new(degree: usize) -> (r: Self)
        ensures
            r.spec_degree() == degree,
            r.spec_include_bias(),
            !r.spec_interaction_only(),
            r.spec_combinations().len() == 0,
            r.spec_input_n_features() == 0,
            !r.spec_fitted(),
    {
        let r = PolynomialFeatures {
            degree,
            include_bias: true,
            interaction_only: false,
            combinations: Vec::new(),
            input_n_features: 0,
            fitted: false,
        };
        assert(r.spec_combinations() =~= Seq::empty());
        r
    }

    /// Sets whether the constant feature is output.
    pub fn include_bias(self, b: bool) -> (r: Self)
        ensures
            r.spec_include_bias() == b,
            r.spec_degree() == self.spec_degree(),
            r.spec_interaction_only() == self.spec_interaction_only(),
            r.spec_combinations() == self.spec_combinations(),
            r.spec_input_n_features() == self.spec_input_n_features(),
            r.spec_fitted() == self.spec_fitted(),
    {
        PolynomialFeatures { include_bias: b, ..self }
    }

    /// Sets whether only products of distinct features are output.
    pub fn interaction_only(self, b: bool) -> (r: Self)
        ensures
            r.spec_interaction_only() == b,
            r.spec_degree() == self.spec_degree(),
            r.spec_include_bias() == self.spec_include_bias(),
            r.spec_combinations() == self.spec_combinations(),
            r.spec_input_n_features() == self.spec_input_n_features(),
            r.spec_fitted() == self.spec_fitted(),
    {
        PolynomialFeatures { interaction_only: b, ..self }
    }

    /// The number of output features.
    pub fn n_output_features(&self) -> (r: usize)
        ensures
            r == self.spec_combinations().len(),
    {
        self.combinations.len()
    }

    /// The configured degree.
    pub fn degree(&self) -> (r: usize)
        ensures
            r == self.spec_degree(),
    {
        self.degree
    }

    /// The combinations of `d` indices from `0..n`, with repetition, in
    /// lexicographic order.
    pub fn combinations_with_replacement(n: usize, d: usize) -> (r: Vec<Vec<usize>>)
        ensures
            index_lists(r@) == cwr(n as nat, d as nat, 0),
    {
        let mut out: Vec<Vec<usize>> = Vec::new();
        if d == 0 {
            out.push(Vec::new());
            assert(index_lists(out@) =~= cwr(n as nat, 0, 0));
            return out;
        }
        let mut current: Vec<usize> = Vec::new();
        for t in 0..d
            invariant
                current@.len() == t,
        {
            current.push(0);
        }
        recurse(n, d, 0, 0, &mut current, &mut out);
        proof {
            assert(current@.take(0) =~= Seq::<usize>::empty());
            assert forall|t: int| 0 <= t < cwr(n as nat, d as nat, 0).len() implies #[trigger] prefixed(
                Seq::<usize>::empty(),
                cwr(n as nat, d as nat, 0),
            )[t] == cwr(n as nat, d as nat, 0)[t] by {
                assert(Seq::<usize>::empty() + cwr(n as nat, d as nat, 0)[t] =~= cwr(n as nat, d as nat, 0)[t]);
            }
            assert(prefixed(Seq::<usize>::empty(), cwr(n as nat, d as nat, 0)) =~= cwr(n as nat, d as nat, 0));
            assert(index_lists(out@) =~= Seq::new(out@.len(), |t: int| out@[t]@));
        }
        out
    }

    /// The output combinations of all degrees up to `degree`, lowest degree
    /// first; degree 0 (the bias) only when asked, and, when only
    /// interactions are asked, no combination that repeats a feature.
    pub fn build_combinations(
        n_features: usize,
        degree: usize,
        include_bias: bool,
        interaction_only: bool,
    ) -> (r: Vec<Vec<usize>>)
        ensures
            index_lists(r@) == combos_below(
                n_features as nat,
                degree as nat + 1,
                include_bias,
                interaction_only,
            ),
    {
        let mut combos: Vec<Vec<usize>> = Vec::new();
        let mut d: usize = 0;
        assert(index_lists(combos@) =~= combos_below(n_features as nat, 0, include_bias, interaction_only));
        loop
            invariant_except_break
                d <= degree,
                index_lists(combos@) == combos_below(
                    n_features as nat,
                    d as nat,
                    include_bias,
                    interaction_only,
                ),
            ensures
                index_lists(combos@) == combos_below(
                    n_features as nat,
                    degree as nat + 1,
                    include_bias,
                    interaction_only,
                ),
            decreases degree - d,
        {
            let cs = Self::combinations_with_replacement(n_features, d);
            let ghost all = cwr(n_features as nat, d as nat, 0);
            let ghost base = index_lists(combos@);
            let m = cs.len();
            for t in 0..m
                invariant
                    m == cs@.len(),
                    index_lists(cs@) == all,
                    index_lists(combos@) == base + selected(
                        all.take(t as int),
                        d as nat,
                        include_bias,
                        interaction_only,
                    ),
            {
                let c = &cs[t];
                let keep = if d == 0 {
                    include_bias
                } else {
                    !interaction_only || !has_repeat(c)
                };
                assert(all.take(t + 1).drop_last() =~= all.take(t as int));
                assert(all.take(t + 1).last() == c@);
                let ghost before = index_lists(combos@);
                if keep {
                    let copy = c.clone();
                    assert(copy@ == c@) by {
                        assert forall|i: int| 0 <= i < copy@.len() implies copy@[i] == c@[i] by {
                            assert(cloned::<usize>(c@[i], copy@[i]));
                        }
                        assert(copy@ =~= c@);
                    }
                    combos.push(copy);
                    assert(index_lists(combos@) =~= before.push(c@));
                }
            }
            assert(all.take(m as int) =~= all);
            assert(index_lists(combos@) == combos_below(
                n_features as nat,
                d as nat + 1,
                include_bias,
                interaction_only,
            ));
            if d == degree {
                break ;
            }
            d = d + 1;
        }
        combos
    }
}

/// The name of feature `idx`: its given name, or `x` and its index.
pub open spec fn base_name(names: Seq<Seq<char>>, idx: usize) -> Seq<char> {
    if idx < names.len() {
        names[idx as int]
    } else {
        default_name(idx as nat)
    }
}

/// The number of equal indices in the run that starts at position `i`.
pub open spec fn run_len(c: Seq<usize>, i: int) -> nat
    decreases c.len() - i,
{
    if 0 <= i && i + 1 < c.len() && c[i + 1] == c[i] {
        1 + run_len(c, i + 1)
    } else {
        1
    }
}

/// A run starting inside the sequence holds at least its first index and
/// ends within the sequence.
pub proof fn lemma_run_len_positive(c: Seq<usize>, i: int)
    requires
        0 <= i < c.len(),
    ensures
        1 <= run_len(c, i) <= c.len() - i,
    decreases c.len() - i,
{
    if i + 1 < c.len() && c[i + 1] == c[i] {
        lemma_run_len_positive(c, i + 1);
    }
}

/// The name of a run of `count` copies of feature `idx`.
pub open spec fn part_name(names: Seq<Seq<char>>, idx: usize, count: nat) -> Seq<char> {
    if count == 1 {
        base_name(names, idx)
    } else {
        base_name(names, idx) + "^"@ + decimal(count)
    }
}

/// The names of the runs of `c` from position `i` on.
pub open spec fn parts_from(c: Seq<usize>, names: Seq<Seq<char>>, i: int) -> Seq<Seq<char>>
    decreases c.len() - i,
{
    if i < 0 || i >= c.len() {
        Seq::<Seq<char>>::empty()
    } else {
        proof {
            lemma_run_len_positive(c, i);
        }
        seq![part_name(names, c[i], run_len(c, i))] + parts_from(c, names, i + run_len(c, i))
    }
}

/// Texts joined by single spaces.
pub open spec fn join_space(p: Seq<Seq<char>>) -> Seq<char>
    decreases p.len(),
{
    if p.len() == 0 {
        Seq::<char>::empty()
    } else if p.len() == 1 {
        p[0]
    } else {
        join_space(p.drop_last()) + " "@ + p.last()
    }
}

/// The name of an output feature: `1` for the bias, otherwise the names of
/// its runs of equal features (with `^count` for a power), joined by spaces.
pub open spec fn combo_name_spec(c: Seq<usize>, names: Seq<Seq<char>>) -> Seq<char> {
    if c.len() == 0 {
        "1"@
    } else {
        join_space(parts_from(c, names, 0))
    }
}

proof fn lemma_run_len(c: Seq<usize>, i: int, count: int)
    requires
        0 <= i,
        count >= 1,
        i + count <= c.len(),
        forall|t: int| 0 <= t < count ==> #[trigger] c[i + t] == c[i],
        i + count == c.len() || c[i + count] != c[i],
    ensures
        run_len(c, i) == count,
    decreases count,
{
    if count > 1 {
        assert(c[i + 1] == c[i]);
        assert forall|t: int| 0 <= t < count - 1 implies #[trigger] c[(i + 1) + t] == c[i + 1] by {
            assert(c[i + (t + 1)] == c[i]);
        }
        lemma_run_len(c, i + 1, count - 1);
    } else {
        if i + 1 < c.len() {
            assert(c[i + 1] != c[i]);
        }
    }
}

/// The name of the output feature of `combo` given input feature names.
pub fn combo_name(combo: &[usize], names: &[String]) -> (r: String)
    ensures
        r@ == combo_name_spec(combo@, texts(names@)),
{
    let len = combo.len();
    if len == 0 {
        return "1".to_owned();
    }
    let ghost ns = texts(names@);
    let ghost c = combo@;
    let mut out = String::new();
    let ghost mut done: Seq<Seq<char>> = Seq::empty();
    let mut i: usize = 0;
    while i < len
        invariant
            len == c.len(),
            c == combo@,
            ns == texts(names@),
            len > 0,
            i <= len,
            done + parts_from(c, ns, i as int) == parts_from(c, ns, 0),
            out@ == join_space(done),
            i == 0 <==> done.len() == 0,
        decreases len - i,
    {
        let idx = combo[i];
        let mut count: usize = 1;
        while i + count < len && combo[i + count] == idx
            invariant
                len == c.len(),
                c == combo@,
                i < len,
                count >= 1,
                i + count <= len,
                idx == c[i as int],
                forall|t: int| 0 <= t < count ==> #[trigger] c[i + t] == c[i as int],
            decreases len - i - count,
        {
            count = count + 1;
        }
        proof {
            lemma_run_len(c, i as int, count as int);
        }
        let base = if idx < names.len() {
            names[idx].clone()
        } else {
            default_name_text(idx)
        };
        let mut part = base;
        if count != 1 {
            part.append("^");
            let ct = usize_text(count);
            part.append(ct.as_str());
        }
        assert(part@ == part_name(ns, idx, count as nat));
        if i > 0 {
            out.append(" ");
        }
        out.append(part.as_str());
        proof {
            let p = part_name(ns, idx, count as nat);
            assert(parts_from(c, ns, i as int) == seq![p] + parts_from(c, ns, i + count));
            assert(done.push(p) + parts_from(c, ns, i + count) =~= done + parts_from(c, ns, i as int));
            if done.len() > 0 {
                assert(done.push(p).drop_last() =~= done);
            }
            done = done.push(p);
        }
        i = i + count;
    }
    assert(parts_from(c, ns, len as int) =~= Seq::<Seq<char>>::empty());
    assert(done =~= parts_from(c, ns, 0)) by {
        assert(done + Seq::<Seq<char>>::empty() =~= done);
    }
    out
}

impl PolynomialFeatures {
    /// Learns the output combinations for `n_features` input features.
    /// Refused when degree 0 is asked without the bias, or when no
    /// combination results; the second refusal clears the combinations.
    pub fn fit(&mut self, n_features: usize) -> (r: Result<()>)
        ensures
            final(self).spec_degree() == old(self).spec_degree(),
            final(self).spec_include_bias() == old(self).spec_include_bias(),
            final(self).spec_interaction_only() == old(self).spec_interaction_only(),
            ({
                let combos = combos_below(
                    n_features as nat,
                    old(self).spec_degree() + 1,
                    old(self).spec_include_bias(),
                    old(self).spec_interaction_only(),
                );
                if old(self).spec_degree() == 0 && !old(self).spec_include_bias() {
                    is_invalid_config(r, "degree=0 with include_bias=false produces no features"@)
                        && final(self).spec_combinations() == old(self).spec_combinations()
                        && final(self).spec_fitted() == old(self).spec_fitted()
                        && final(self).spec_input_n_features() == old(self).spec_input_n_features()
                } else if combos.len() == 0 {
                    is_invalid_config(r, "no output features generated"@)
                        && final(self).spec_combinations().len() == 0
                        && final(self).spec_fitted() == old(self).spec_fitted()
                        && final(self).spec_input_n_features() == old(self).spec_input_n_features()
                } else {
                    r is Ok && final(self).spec_combinations() == combos && final(self).spec_fitted()
                        && final(self).spec_input_n_features() == n_features
                }
            }),
    {
        if self.degree == 0 && !self.include_bias {
            return Err(
                DatarustError::InvalidConfig(
                    "degree=0 with include_bias=false produces no features".to_owned(),
                ),
            );
        }
        self.combinations = Self::build_combinations(
            n_features,
            self.degree,
            self.include_bias,
            self.interaction_only,
        );
        if self.combinations.len() == 0 {
            return Err(DatarustError::InvalidConfig("no output features generated".to_owned()));
        }
        self.input_n_features = n_features;
        self.fitted = true;
        Ok(())
    }

    /// Names of the output features, from the given input names or the
    /// defaults `x0, x1, ...`.
    pub fn feature_names_out(&self, input_features: Option<&[String]>) -> (r: Vec<String>)
        ensures
            ({
                let names = match input_features {
                    Some(fs) => texts(fs@),
                    None => Seq::new(
                        self.spec_input_n_features(),
                        |j: int| default_name(j as nat),
                    ),
                };
                texts(r@) == Seq::new(
                    self.spec_combinations().len(),
                    |t: int| combo_name_spec(self.spec_combinations()[t], names),
                )
            }),
    {
        let names: Vec<String> = match input_features {
            Some(fs) => {
                let m = fs.len();
                let mut v: Vec<String> = Vec::new();
                for j in 0..m
                    invariant
                        m == fs@.len(),
                        v@.len() == j,
                        forall|k: int| 0 <= k < j ==> (#[trigger] v@[k])@ == fs@[k]@,
                {
                    v.push(fs[j].clone());
                }
                assert(texts(v@) =~= texts(fs@));
                v
            },
            None => {
                let v = default_input_names(self.input_n_features);
                assert(texts(v@) =~= Seq::new(
                    self.spec_input_n_features(),
                    |j: int| default_name(j as nat),
                ));
                v
            },
        };
        let ghost ns = texts(names@);
        let k = self.combinations.len();
        let mut out: Vec<String> = Vec::new();
        for t in 0..k
            invariant
                k == self.combinations@.len(),
                ns == texts(names@),
                out@.len() == t,
                forall|a: int| 0 <= a < t ==> (#[trigger] out@[a])@ == combo_name_spec(
                    self.spec_combinations()[a],
                    ns,
                ),
        {
            out.push(combo_name(self.combinations[t].as_slice(), names.as_slice()));
        }
        assert(texts(out@) =~= Seq::new(
            self.spec_combinations().len(),
            |t: int| combo_name_spec(self.spec_combinations()[t], ns),
        ));
        out
    }
}

impl Default for PolynomialFeatures {
    fn default() -> (r: Self)
        ensures
            r.spec_degree() == 2,
            r.spec_include_bias(),
            !r.spec_interaction_only(),
            r.spec_combinations().len() == 0,
            !r.spec_fitted(),
    {
        Self::new(2)
    }
}

/// The binomial coefficient, by Pascal's rule.
pub open spec fn binom(a: nat, b: nat) -> nat
    decreases a,
{
    if b == 0 {
        1
    } else if a == 0 {
        0
    } else {
        binom((a - 1) as nat, (b - 1) as nat) + binom((a - 1) as nat, b)
    }
}

/// The number of multisets of size `d` drawn from `k` kinds.
pub open spec fn multichoose(k: nat, d: nat) -> nat
    decreases d, k,
{
    if d == 0 {
        1
    } else if k == 0 {
        0
    } else {
        multichoose(k, (d - 1) as nat) + multichoose((k - 1) as nat, d)
    }
}

proof fn lemma_binom_above(a: nat, b: nat)
    requires
        b > a,
    ensures
        binom(a, b) == 0,
    decreases a,
{
    if a > 0 {
        lemma_binom_above((a - 1) as nat, (b - 1) as nat);
        lemma_binom_above((a - 1) as nat, b);
    }
}

proof fn lemma_binom_diagonal(a: nat)
    ensures
        binom(a, a) == 1,
    decreases a,
{
    if a > 0 {
        lemma_binom_diagonal((a - 1) as nat);
        lemma_binom_above((a - 1) as nat, a);
    }
}

proof fn lemma_cwr_len(n: nat, d: nat, start: nat)
    requires
        start <= n,
    ensures
        cwr(n, d, start).len() == multichoose((n - start) as nat, d),
    decreases d, n - start,
{
    if d > 0 && start < n {
        lemma_cwr_len(n, (d - 1) as nat, start);
        lemma_cwr_len(n, d, start + 1);
    }
}

proof fn lemma_multichoose_binom(k: nat, d: nat)
    requires
        k >= 1,
    ensures
        multichoose(k, d) == binom((k + d - 1) as nat, d),
    decreases d, k,
{
    if d > 0 {
        lemma_multichoose_binom(k, (d - 1) as nat);
        if k == 1 {
            assert(multichoose(0, d) == 0);
            lemma_binom_diagonal(d);
            lemma_binom_diagonal((d - 1) as nat);
        } else {
            lemma_multichoose_binom((k - 1) as nat, d);
            assert(binom((k + d - 1) as nat, d) == binom((k + d - 2) as nat, (d - 1) as nat) + binom(
                (k + d - 2) as nat,
                d,
            ));
        }
    }
}

proof fn lemma_selected_all(cs: Seq<Seq<usize>>, d: nat)
    ensures
        selected(cs, d, true, false) == cs,
    decreases cs.len(),
{
    if cs.len() > 0 {
        lemma_selected_all(cs.drop_last(), d);
        assert(cs.drop_last().push(cs.last()) =~= cs);
    }
}

/// With the bias and every power kept, `n` input features of degree `d`
/// give C(n + d, d) output features.
pub proof fn lemma_output_count(n: nat, d: nat)
    ensures
        combos_below(n, d + 1, true, false).len() == binom(n + d, d),
    decreases d,
{
    lemma_selected_all(cwr(n, d, 0), d);
    lemma_cwr_len(n, d, 0);
    if d == 0 {
        assert(combos_below(n, 0, true, false).len() == 0);
    } else {
        lemma_output_count(n, (d - 1) as nat);
        assert(combos_below(n, d + 1, true, false).len() == combos_below(n, d, true, false).len()
            + cwr(n, d, 0).len());
        if n == 0 {
            assert(multichoose(0, d) == 0);
            lemma_binom_diagonal((d - 1) as nat);
            lemma_binom_diagonal(d);
        } else {
            lemma_multichoose_binom(n, d);
            assert(binom(n + d, d) == binom((n + d - 1) as nat, (d - 1) as nat) + binom(
                (n + d - 1) as nat,
                d,
            ));
        }
    }
}

} // verus!
