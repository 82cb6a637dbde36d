//! K-fold and stratified K-fold cross-validation splitters.

use vstd::prelude::*;
use crate::error::{is_empty_input, is_invalid_input, DatarustError, Result};
use crate::model_selection::rng::{
    initial_state, is_permutation_of_range, lemma_shuffle_same_elements, shuffle_spec, Rng,
    DEFAULT_SEED,
};
use crate::text::{decimal, usize_text};

verus! {

/// Size of fold `f` when `n` samples are spread over `k` folds: the first
/// `n % k` folds get one sample more.
pub open spec fn fold_size(n: nat, k: nat, f: int) -> nat {
    n / k + if f < n % k {
        1nat
    } else {
        0nat
    }
}

/// Position of the first sample of fold `f`.
pub open spec fn fold_start(n: nat, k: nat, f: int) -> int {
    f * (n / k) as int + if f < n % k {
        f
    } else {
        (n % k) as int
    }
}

/// The numbers `0..n` in order.
pub open spec fn range_seq(n: nat) -> Seq<usize> {
    Seq::new(n, |i: int| i as usize)
}

/// The seed used for shuffling.
pub open spec fn seed_of(random_state: Option<u64>) -> u64 {
    match random_state {
        Some(s) => s,
        None => DEFAULT_SEED,
    }
}

/// The sample order that `split` cuts into folds.
pub open spec fn sample_order(n: nat, shuffle: bool, random_state: Option<u64>) -> Seq<usize> {
    if shuffle {
        shuffle_spec(range_seq(n), initial_state(seed_of(random_state)), n).0
    } else {
        range_seq(n)
    }
}

/// The test samples of fold `f`: a contiguous block of `order`.
pub open spec fn test_fold(order: Seq<usize>, k: nat, f: int) -> Seq<usize> {
    order.subrange(fold_start(order.len(), k, f), fold_start(order.len(), k, f + 1))
}

/// The training samples of fold `f`: everything before and after its block.
pub open spec fn train_fold(order: Seq<usize>, k: nat, f: int) -> Seq<usize> {
    order.take(fold_start(order.len(), k, f)) + order.skip(fold_start(order.len(), k, f + 1))
}

/// Each fold starts where the previous one ends.
pub proof fn lemma_fold_start_step(n: nat, k: nat, f: int)
    requires
        k > 0,
        0 <= f,
    ensures
        fold_start(n, k, f + 1) == fold_start(n, k, f) + fold_size(n, k, f),
{
    assert((f + 1) * (n / k) as int == f * (n / k) as int + (n / k) as int) by (nonlinear_arith);
}

/// The folds start at 0 and the last one ends at `n`.
pub proof fn lemma_fold_start_bounds(n: nat, k: nat, f: int)
    requires
        k > 0,
        0 <= f <= k,
    ensures
        fold_start(n, k, 0) == 0,
        0 <= fold_start(n, k, f) <= n,
        fold_start(n, k, k as int) == n,
        forall|g: int| 0 <= g <= f ==> fold_start(n, k, g) <= fold_start(n, k, f),
{
    assert(n == k * (n / k) + n % k) by (nonlinear_arith)
        requires
            k > 0,
    ;
    assert(f * (n / k) as int <= k * (n / k) as int) by (nonlinear_arith)
        requires
            0 <= f <= k,
    ;
    let b: int = (n / k) as int;
    assert forall|g: int| 0 <= g <= f implies fold_start(n, k, g) <= fold_start(n, k, f) by {
        assert(g * b <= f * b) by (nonlinear_arith)
            requires
                0 <= g <= f,
                b >= 0,
        ;
    }
    assert(0 * (n / k) as int == 0);
}

/// Fold sizes differ by at most one and never grow.
pub proof fn lemma_fold_sizes_balanced(n: nat, k: nat, f: int, g: int)
    requires
        k > 0,
        0 <= f <= g < k,
    ensures
        fold_size(n, k, g) <= fold_size(n, k, f) <= fold_size(n, k, g) + 1,
{
}

/// Some fold holds position `p`, starting the search at fold `g`.
proof fn lemma_find_fold(n: nat, k: nat, p: int, g: int) -> (f: int)
    requires
        k > 0,
        0 <= g < k,
        fold_start(n, k, g) <= p < n,
    ensures
        g <= f < k,
        fold_start(n, k, f) <= p < fold_start(n, k, f + 1),
    decreases k - g,
{
    lemma_fold_start_bounds(n, k, k as int);
    if p < fold_start(n, k, g + 1) {
        g
    } else {
        if g + 1 == k {
            assert(false);
        }
        lemma_find_fold(n, k, p, g + 1)
    }
}

/// The sample order is a permutation of `0..n`, shuffled or not.
pub proof fn lemma_sample_order_is_permutation(n: nat, shuffle: bool, random_state: Option<u64>)
    requires
        n <= usize::MAX,
    ensures
        is_permutation_of_range(sample_order(n, shuffle, random_state), n),
{
    let r = range_seq(n);
    assert forall|x: usize| r.contains(x) <==> x < n by {
        if x < n {
            assert(r[x as int] == x);
        }
    }
    assert forall|i: int, j: int| 0 <= i < r.len() && 0 <= j < r.len() && i != j implies r[i]
        != r[j] by {
        assert(r[i] == i as usize);
        assert(r[j] == j as usize);
    }
    assert(r.no_duplicates());
    if shuffle {
        lemma_shuffle_same_elements(r, initial_state(seed_of(random_state)), n);
    }
}

/// Every sample is tested in exactly one fold.
pub proof fn lemma_kfold_test_folds_partition(order: Seq<usize>, k: nat, x: usize)
    requires
        is_permutation_of_range(order, order.len()),
        0 < k <= order.len(),
        x < order.len(),
    ensures
        exists|f: int| 0 <= f < k && (#[trigger] test_fold(order, k, f)).contains(x),
        forall|f: int, g: int|
            0 <= f < k && 0 <= g < k && (#[trigger] test_fold(order, k, f)).contains(x) && (
            #[trigger] test_fold(order, k, g)).contains(x) ==> f == g,
{
    let n = order.len();
    assert(order.contains(x));
    let p = choose|p: int| 0 <= p < n && order[p] == x;
    lemma_fold_start_bounds(n, k, 0);
    let f = lemma_find_fold(n, k, p, 0);
    lemma_fold_start_bounds(n, k, f + 1);
    assert(test_fold(order, k, f)[p - fold_start(n, k, f)] == x);
    assert forall|a: int, b: int|
        0 <= a < k && 0 <= b < k && (#[trigger] test_fold(order, k, a)).contains(x) && (
        #[trigger] test_fold(order, k, b)).contains(x) implies a == b by {
        let qa = choose|q: int| 0 <= q < test_fold(order, k, a).len() && test_fold(order, k, a)[q] == x;
        let qb = choose|q: int| 0 <= q < test_fold(order, k, b).len() && test_fold(order, k, b)[q] == x;
        lemma_fold_start_bounds(n, k, a + 1);
        lemma_fold_start_bounds(n, k, b + 1);
        let pa = fold_start(n, k, a) + qa;
        let pb = fold_start(n, k, b) + qb;
        assert(order[pa] == x);
        assert(order[pb] == x);
        assert(pa == pb);
        if a < b {
            lemma_fold_start_bounds(n, k, b);
            assert(fold_start(n, k, a + 1) <= fold_start(n, k, b));
        } else if b < a {
            lemma_fold_start_bounds(n, k, a);
            assert(fold_start(n, k, b + 1) <= fold_start(n, k, a));
        }
    }
}

/// In every fold the training and test samples are disjoint and together
/// are all the samples.
pub proof fn lemma_kfold_train_test_complement(order: Seq<usize>, k: nat, f: int)
    requires
        is_permutation_of_range(order, order.len()),
        0 < k <= order.len(),
        0 <= f < k,
    ensures
        forall|x: usize| !(train_fold(order, k, f).contains(x) && test_fold(order, k, f).contains(x)),
        forall|x: usize| x < order.len() ==> train_fold(order, k, f).contains(x) || test_fold(order, k, f).contains(x),
        train_fold(order, k, f).len() + test_fold(order, k, f).len() == order.len(),
{
    let n = order.len();
    lemma_fold_start_bounds(n, k, f + 1);
    lemma_fold_start_bounds(n, k, f);
    let a = fold_start(n, k, f);
    let b = fold_start(n, k, f + 1);
    let tr = train_fold(order, k, f);
    let te = test_fold(order, k, f);
    assert forall|x: usize| !(tr.contains(x) && te.contains(x)) by {
        if tr.contains(x) && te.contains(x) {
            let i = choose|i: int| 0 <= i < tr.len() && tr[i] == x;
            let j = choose|j: int| 0 <= j < te.len() && te[j] == x;
            let pi = if i < a { i } else { i - a + b };
            assert(order[pi] == x);
            assert(order[a + j] == x);
        }
    }
    assert forall|x: usize| x < n implies tr.contains(x) || te.contains(x) by {
        assert(order.contains(x));
        let p = choose|p: int| 0 <= p < n && order[p] == x;
        if p < a {
            assert(tr[p] == x);
        } else if p < b {
            assert(te[p - a] == x);
        } else {
            assert(tr[p - b + a] == x);
        }
    }
}

/// Sizes of the `n_splits` folds of `n_samples` samples; the remainder goes
/// to the first folds.
pub fn fold_sizes(n_samples: usize, n_splits: usize) -> (r: Vec<usize>)
    requires
        n_splits > 0,
    ensures
        r@.len() == n_splits,
        forall|f: int| 0 <= f < n_splits ==> #[trigger] r@[f] == fold_size(n_samples as nat, n_splits as nat, f),
{
    let base = n_samples / n_splits;
    let rem = n_samples % n_splits;
    let mut out: Vec<usize> = Vec::new();
    for i in 0..n_splits
        invariant
            base == n_samples / n_splits,
            rem == n_samples % n_splits,
            out@.len() == i,
            forall|f: int| 0 <= f < i ==> #[trigger] out@[f] == fold_size(n_samples as nat, n_splits as nat, f),
    {
        assert(base + rem <= n_samples) by (nonlinear_arith)
            requires
                base == n_samples / n_splits,
                rem == n_samples % n_splits,
                n_splits > 0,
        ;
        let s = if i < rem { base + 1 } else { base };
        out.push(s);
    }
    out
}

/// K-fold cross-validation splitter: `n_splits` consecutive folds of the
/// (optionally shuffled) samples, each used once as the test set.
#[derive(Debug, Clone)]
pub struct KFold {
    n_splits: usize,
    shuffle: bool,
    random_state: Option<u64>,
}

/// The errors that a splitter gives for `n` samples and `k` folds, and when
/// it gives none.
pub open spec fn split_refusal<T>(n: nat, k: nat, empty_text: Seq<char>, r: Result<T>) -> bool {
    if n == 0 {
        is_empty_input(r, empty_text)
    } else if k < 2 {
        is_invalid_input(r, "n_splits must be >= 2, got "@ + decimal(k))
    } else if k > n {
        is_invalid_input(
            r,
            "n_splits ("@ + decimal(k) + ") cannot be greater than n_samples ("@ + decimal(n)
                + ")"@,
        )
    } else {
        true
    }
}

/// Whether a splitter accepts `n` samples and `k` folds.
pub open spec fn split_accepted(n: nat, k: nat) -> bool {
    n > 0 && 2 <= k <= n
}

/// Checks the number of samples and folds, with the splitters' texts.
fn check_split(n: usize, k: usize, empty_text: &str) -> (r: Result<()>)
    ensures
        split_refusal(n as nat, k as nat, empty_text@, r),
        split_accepted(n as nat, k as nat) <==> r is Ok,
{
    if n == 0 {
        return Err(DatarustError::EmptyInput(empty_text.to_owned()));
    }
    if k < 2 {
        let mut m = "n_splits must be >= 2, got ".to_owned();
        let kt = usize_text(k);
        m.append(kt.as_str());
        return Err(DatarustError::InvalidInput(m));
    }
    if k > n {
        let mut m = "n_splits (".to_owned();
        let kt = usize_text(k);
        m.append(kt.as_str());
        m.append(") cannot be greater than n_samples (");
        let nt = usize_text(n);
        m.append(nt.as_str());
        m.append(")");
        return Err(DatarustError::InvalidInput(m));
    }
    Ok(())
}

/// The numbers `0..n` in order.
pub(crate) fn range_vec(n: usize) -> (r: Vec<usize>)
    ensures
        r@ == range_seq(n as nat),
{
    let mut v: Vec<usize> = Vec::new();
    for i in 0..n
        invariant
            v@ == range_seq(i as nat),
    {
        v.push(i);
        assert(v@ =~= range_seq((i + 1) as nat));
    }
    v
}

/// A copy of `v[a..b]`.
pub(crate) fn copy_range(v: &Vec<usize>, a: usize, b: usize) -> (r: Vec<usize>)
    requires
        a <= b <= v@.len(),
    ensures
        r@ == v@.subrange(a as int, b as int),
{
    let mut out: Vec<usize> = Vec::new();
    for i in a..b
        invariant
            a <= b <= v@.len(),
            out@ == v@.subrange(a as int, i as int),
    {
        out.push(v[i]);
        assert(out@ =~= v@.subrange(a as int, i + 1));
    }
    out
}

impl KFold {
    /// The number of folds.
    pub closed spec fn spec_n_splits(&self) -> nat {
        self.n_splits as nat
    }

    /// Whether samples are shuffled before folding.
    pub closed spec fn spec_shuffle(&self) -> bool {
        self.shuffle
    }

    /// The seed of the shuffle, when one was given.
    pub closed spec fn spec_random_state(&self) -> Option<u64> {
        self.random_state
    }

    /// The number of folds.
    pub fn n_splits(&self) -> (r: usize)
        ensures
            r == self.spec_n_splits(),
    {
        self.n_splits
    }

    /// Whether samples are shuffled before splitting.
    pub fn shuffle(&self) -> (r: bool)
        ensures
            r == self.spec_shuffle(),
    {
        self.shuffle
    }

    /// The shuffling seed, if one was set.
    pub fn random_state(&self) -> (r: Option<u64>)
        ensures
            r == self.spec_random_state(),
    {
        self.random_state
    }

    /// Five folds, no shuffling, no seed.
    pub fn new() -> (r: Self)
        ensures
            r.spec_n_splits() == 5,
            !r.spec_shuffle(),
            r.spec_random_state() == None::<u64>,
    {
        KFold { n_splits: 5, shuffle: false, random_state: None }
    }

    /// Sets the number of folds.
    pub fn with_n_splits(self, n: usize) -> (r: Self)
        ensures
            r.spec_n_splits() == n,
            r.spec_shuffle() == self.spec_shuffle(),
            r.spec_random_state() == self.spec_random_state(),
    {
        KFold { n_splits: n, ..self }
    }

    /// Sets whether samples are shuffled before folding.
    pub fn with_shuffle(self, shuffle: bool) -> (r: Self)
        ensures
            r.spec_n_splits() == self.spec_n_splits(),
            r.spec_shuffle() == shuffle,
            r.spec_random_state() == self.spec_random_state(),
    {
        KFold { shuffle, ..self }
    }

    /// Sets the seed of the shuffle.
    pub fn with_random_state(self, seed: u64) -> (r: Self)
        ensures
            r.spec_n_splits() == self.spec_n_splits(),
            r.spec_shuffle() == self.spec_shuffle(),
            r.spec_random_state() == Some(seed),
    {
        KFold { random_state: Some(seed), ..self }
    }

    /// The `(train, test)` index pairs, one per fold: fold `f` tests the
    /// `f`-th contiguous block of the sample order and trains on the rest.
    pub fn split(&self, n_samples: usize) -> (r: Result<Vec<(Vec<usize>, Vec<usize>)>>)
        ensures
            split_refusal(n_samples as nat, self.spec_n_splits(), "n_samples is 0"@, r),
            split_accepted(n_samples as nat, self.spec_n_splits()) ==> (r matches Ok(folds) && {
                let order = sample_order(
                    n_samples as nat,
                    self.spec_shuffle(),
                    self.spec_random_state(),
                );
                &&& self.spec_shuffle() ==> order == shuffle_spec(
                    range_seq(n_samples as nat),
                    initial_state(seed_of(self.spec_random_state())),
                    n_samples as nat,
                ).0
                &&& !self.spec_shuffle() ==> order == range_seq(n_samples as nat)
                &&& folds@.len() == self.spec_n_splits()
                &&& forall|f: int|
                    0 <= f < folds@.len() ==> (#[trigger] folds@[f]).1@ == test_fold(
                        order,
                        self.spec_n_splits(),
                        f,
                    ) && folds@[f].0@ == train_fold(order, self.spec_n_splits(), f)
            }),
    {
        let n = n_samples;
        let k = self.n_splits;
        match check_split(n, k, "n_samples is 0") {
            Err(e) => {
                return Err(e);
            },
            Ok(()) => {},
        }
        let mut indices = range_vec(n);
        if self.shuffle {
            let seed = match self.random_state {
                Some(s) => s,
                None => DEFAULT_SEED,
            };
            let mut rng = Rng::new(seed);
            rng.shuffle(&mut indices);
        }
        let ghost order = sample_order(n as nat, self.shuffle, self.random_state);
        assert(indices@ == order);
        let sizes = fold_sizes(n, k);
        let mut out: Vec<(Vec<usize>, Vec<usize>)> = Vec::new();
        let mut start: usize = 0;
        proof {
            lemma_fold_start_bounds(n as nat, k as nat, 0);
        }
        for f in 0..k
            invariant
                n == indices@.len(),
                indices@ == order,
                k == self.spec_n_splits(),
                2 <= k <= n,
                sizes@.len() == k,
                forall|g: int| 0 <= g < k ==> #[trigger] sizes@[g] == fold_size(n as nat, k as nat, g),
                start == fold_start(n as nat, k as nat, f as int),
                out@.len() == f,
                forall|g: int|
                    0 <= g < f ==> (#[trigger] out@[g]).1@ == test_fold(order, k as nat, g)
                        && out@[g].0@ == train_fold(order, k as nat, g),
        {
            proof {
                lemma_fold_start_step(n as nat, k as nat, f as int);
                lemma_fold_start_bounds(n as nat, k as nat, f + 1);
            }
            let end = start + sizes[f];
            let test = copy_range(&indices, start, end);
            let mut train = copy_range(&indices, 0, start);
            let mut rest = copy_range(&indices, end, n);
            train.append(&mut rest);
            assert(train@ =~= train_fold(order, k as nat, f as int));
            out.push((train, test));
            start = end;
        }
        Ok(out)
    }
}

impl Default for KFold {
    fn default() -> (r: Self)
        ensures
            r.spec_n_splits() == 5,
            !r.spec_shuffle(),
            r.spec_random_state() == None::<u64>,
    {
        Self::new()
    }
}

/// The positions in `y` of the samples whose class is `c`, in order.
pub open spec fn class_members(y: Seq<bool>, c: bool) -> Seq<usize>
    decreases y.len(),
{
    if y.len() == 0 {
        seq![]
    } else {
        class_members(y.drop_last(), c) + if y.last() == c {
            seq![(y.len() - 1) as usize]
        } else {
            seq![]
        }
    }
}

/// The members of `c` at positions `f, f + k, f + 2k, ...`, in order.
pub open spec fn round_robin(c: Seq<usize>, k: nat, f: int) -> Seq<usize>
    decreases c.len(),
{
    if c.len() == 0 {
        seq![]
    } else {
        round_robin(c.drop_last(), k, f) + if (c.len() - 1) % (k as int) == f {
            seq![c.last()]
        } else {
            seq![]
        }
    }
}

/// The negative and the positive samples, each shuffled when asked (the
/// negatives first, then the positives, from one generator).
pub open spec fn stratified_classes(y: Seq<bool>, shuffle: bool, random_state: Option<u64>) -> (
    Seq<usize>,
    Seq<usize>,
) {
    let c0 = class_members(y, false);
    let c1 = class_members(y, true);
    if shuffle {
        let first = shuffle_spec(c0, initial_state(seed_of(random_state)), c0.len());
        let second = shuffle_spec(c1, first.1, c1.len());
        (first.0, second.0)
    } else {
        (c0, c1)
    }
}

/// The test samples of stratified fold `f`: its share of each class.
pub open spec fn stratified_test(classes: (Seq<usize>, Seq<usize>), k: nat, f: int) -> Seq<usize> {
    round_robin(classes.0, k, f) + round_robin(classes.1, k, f)
}

/// The numbers below `n` that `t` does not hold, in order.
pub open spec fn complement(n: nat, t: Seq<usize>) -> Seq<usize>
    decreases n,
{
    if n == 0 {
        seq![]
    } else {
        complement((n - 1) as nat, t) + if t.contains((n - 1) as usize) {
            seq![]
        } else {
            seq![(n - 1) as usize]
        }
    }
}

proof fn lemma_class_members_bounded(y: Seq<bool>, c: bool)
    ensures
        forall|i: int|
            0 <= i < class_members(y, c).len() ==> (#[trigger] class_members(y, c)[i]) < y.len(),
        y.len() <= usize::MAX + 1 ==> class_members(y, c).no_duplicates(),
        y.len() <= usize::MAX + 1 ==> forall|x: usize|
            #[trigger] class_members(y, c).contains(x) <==> (x < y.len() && y[x as int] == c),
    decreases y.len(),
{
    if y.len() > 0 {
        let z = y.drop_last();
        lemma_class_members_bounded(z, c);
        let m = class_members(y, c);
        let mz = class_members(z, c);
        assert forall|i: int| 0 <= i < m.len() implies (#[trigger] m[i]) < y.len() by {
            if i < mz.len() {
                assert(m[i] == mz[i]);
            }
        }
        if y.len() <= usize::MAX + 1 {
            assert forall|i: int, j: int| 0 <= i < m.len() && 0 <= j < m.len() && i != j implies m[i]
                != m[j] by {
                if i < mz.len() {
                    assert(m[i] == mz[i]);
                }
                if j < mz.len() {
                    assert(m[j] == mz[j]);
                }
            }
            assert forall|x: usize| #[trigger] m.contains(x) <==> (x < y.len() && y[x as int] == c) by {
                if m.contains(x) {
                    let i = choose|i: int| 0 <= i < m.len() && m[i] == x;
                    if i < mz.len() {
                        assert(mz[i] == x);
                        assert(mz.contains(x));
                    }
                }
                if x < y.len() && y[x as int] == c {
                    if x < z.len() {
                        assert(z[x as int] == c);
                        assert(mz.contains(x));
                        let i = choose|i: int| 0 <= i < mz.len() && mz[i] == x;
                        assert(m[i] == x);
                    } else {
                        assert(m[mz.len() as int] == x);
                    }
                }
            }
        }
    }
}

/// Stratified K-fold cross-validation splitter: each fold receives its share
/// of each class, so that class ratios are preserved.
#[derive(Debug, Clone)]
pub struct StratifiedKFold {
    n_splits: usize,
    shuffle: bool,
    random_state: Option<u64>,
}

impl StratifiedKFold {
    /// The number of folds.
    pub closed spec fn spec_n_splits(&self) -> nat {
        self.n_splits as nat
    }

    /// Whether each class is shuffled before folding.
    pub closed spec fn spec_shuffle(&self) -> bool {
        self.shuffle
    }

    /// The seed of the shuffle, when one was given.
    pub closed spec fn spec_random_state(&self) -> Option<u64> {
        self.random_state
    }

    /// The number of folds.
    pub fn n_splits(&self) -> (r: usize)
        ensures
            r == self.spec_n_splits(),
    {
        self.n_splits
    }

    /// Whether samples are shuffled before splitting.
    pub fn shuffle(&self) -> (r: bool)
        ensures
            r == self.spec_shuffle(),
    {
        self.shuffle
    }

    /// The shuffling seed, if one was set.
    pub fn random_state(&self) -> (r: Option<u64>)
        ensures
            r == self.spec_random_state(),
    {
        self.random_state
    }

    /// Five folds, no shuffling, no seed.
    pub fn new() -> (r: Self)
        ensures
            r.spec_n_splits() == 5,
            !r.spec_shuffle(),
            r.spec_random_state() == None::<u64>,
    {
        StratifiedKFold { n_splits: 5, shuffle: false, random_state: None }
    }

    /// Sets the number of folds.
    pub fn with_n_splits(self, n: usize) -> (r: Self)
        ensures
            r.spec_n_splits() == n,
            r.spec_shuffle() == self.spec_shuffle(),
            r.spec_random_state() == self.spec_random_state(),
    {
        StratifiedKFold { n_splits: n, ..self }
    }

    /// Sets whether each class is shuffled before folding.
    pub fn with_shuffle(self, shuffle: bool) -> (r: Self)
        ensures
            r.spec_n_splits() == self.spec_n_splits(),
            r.spec_shuffle() == shuffle,
            r.spec_random_state() == self.spec_random_state(),
    {
        StratifiedKFold { shuffle, ..self }
    }

    /// Sets the seed of the shuffle.
    pub fn with_random_state(self, seed: u64) -> (r: Self)
        ensures
            r.spec_n_splits() == self.spec_n_splits(),
            r.spec_shuffle() == self.spec_shuffle(),
            r.spec_random_state() == Some(seed),
    {
        StratifiedKFold { random_state: Some(seed), ..self }
    }

    /// The `(train, test)` index pairs, one per fold, for samples whose class
    /// is given by `positive`: each class is dealt round-robin over the folds
    /// (negatives first); training samples are the rest, in ascending order.
    pub fn split(&self, positive: &[bool]) -> (r: Result<Vec<(Vec<usize>, Vec<usize>)>>)
        ensures
            split_refusal(positive@.len(), self.spec_n_splits(), "y is empty"@, r),
            split_accepted(positive@.len(), self.spec_n_splits()) ==> (r matches Ok(folds) && {
                let classes = stratified_classes(
                    positive@,
                    self.spec_shuffle(),
                    self.spec_random_state(),
                );
                &&& folds@.len() == self.spec_n_splits()
                &&& forall|f: int|
                    0 <= f < folds@.len() ==> (#[trigger] folds@[f]).1@ == stratified_test(
                        classes,
                        self.spec_n_splits(),
                        f,
                    ) && folds@[f].0@ == complement(
                        positive@.len(),
                        stratified_test(classes, self.spec_n_splits(), f),
                    )
            }),
            split_accepted(positive@.len(), self.spec_n_splits()) ==> (r matches Ok(folds) && {
                let c0 = class_members(positive@, false);
                let c1 = class_members(positive@, true);
                let first = shuffle_spec(
                    c0,
                    initial_state(seed_of(self.spec_random_state())),
                    c0.len(),
                );
                let second = shuffle_spec(c1, first.1, c1.len());
                &&& self.spec_shuffle() ==> forall|f: int|
                    0 <= f < folds@.len() ==> (#[trigger] folds@[f]).1@ == round_robin(
                        first.0,
                        self.spec_n_splits(),
                        f,
                    ) + round_robin(second.0, self.spec_n_splits(), f)
                &&& !self.spec_shuffle() ==> forall|f: int|
                    0 <= f < folds@.len() ==> (#[trigger] folds@[f]).1@ == round_robin(
                        c0,
                        self.spec_n_splits(),
                        f,
                    ) + round_robin(c1, self.spec_n_splits(), f)
            }),
    {
        let n = positive.len();
        let k = self.n_splits;
        match check_split(n, k, "y is empty") {
            Err(e) => {
                return Err(e);
            },
            Ok(()) => {},
        }
        let ghost y = positive@;
        let mut class0: Vec<usize> = Vec::new();
        let mut class1: Vec<usize> = Vec::new();
        for i in 0..n
            invariant
                n == y.len(),
                y == positive@,
                class0@ == class_members(y.take(i as int), false),
                class1@ == class_members(y.take(i as int), true),
        {
            assert(y.take(i + 1).drop_last() =~= y.take(i as int));
            if positive[i] {
                class1.push(i);
            } else {
                class0.push(i);
            }
        }
        assert(y.take(n as int) =~= y);
        proof {
            lemma_class_members_bounded(y, false);
            lemma_class_members_bounded(y, true);
        }
        if self.shuffle {
            let seed = match self.random_state {
                Some(s) => s,
                None => DEFAULT_SEED,
            };
            let mut rng = Rng::new(seed);
            rng.shuffle(&mut class0);
            rng.shuffle(&mut class1);
        }
        let ghost classes = stratified_classes(y, self.shuffle, self.random_state);
        assert(class0@ == classes.0 && class1@ == classes.1);
        assert(forall|i: int| 0 <= i < class0@.len() ==> #[trigger] class0@[i] < n) by {
            assert forall|i: int| 0 <= i < class0@.len() implies #[trigger] class0@[i] < n by {
                assert(class0@.contains(class0@[i]));
            }
        }
        assert(forall|i: int| 0 <= i < class1@.len() ==> #[trigger] class1@[i] < n) by {
            assert forall|i: int| 0 <= i < class1@.len() implies #[trigger] class1@[i] < n by {
                assert(class1@.contains(class1@[i]));
            }
        }
        let mut folds: Vec<Vec<usize>> = Vec::new();
        for f in 0..k
            invariant
                folds@.len() == f,
                forall|g: int| 0 <= g < f ==> (#[trigger] folds@[g])@ == Seq::<usize>::empty(),
        {
            folds.push(Vec::new());
        }
        let n0 = class0.len();
        for p in 0..n0
            invariant
                n0 == class0@.len(),
                k >= 2,
                folds@.len() == k,
                forall|g: int|
                    0 <= g < k ==> (#[trigger] folds@[g])@ == round_robin(
                        class0@.take(p as int),
                        k as nat,
                        g,
                    ),
        {
            let f = p % k;
            let v = class0[p];
            let ghost before = folds@;
            folds[f].push(v);
            proof {
                let c = class0@.take(p + 1);
                assert(c.drop_last() =~= class0@.take(p as int));
                assert forall|g: int| 0 <= g < k implies (#[trigger] folds@[g])@ == round_robin(
                    c,
                    k as nat,
                    g,
                ) by {
                    if g == f {
                        assert(folds@[g]@ =~= before[g]@.push(v));
                    } else {
                        assert(folds@[g] == before[g]);
                    }
                }
            }
        }
        assert(class0@.take(n0 as int) =~= class0@);
        let n1 = class1.len();
        for p in 0..n1
            invariant
                n1 == class1@.len(),
                k >= 2,
                folds@.len() == k,
                forall|g: int|
                    0 <= g < k ==> (#[trigger] folds@[g])@ == round_robin(class0@, k as nat, g)
                        + round_robin(class1@.take(p as int), k as nat, g),
        {
            let f = p % k;
            let v = class1[p];
            let ghost before = folds@;
            folds[f].push(v);
            proof {
                let c = class1@.take(p + 1);
                assert(c.drop_last() =~= class1@.take(p as int));
                assert forall|g: int| 0 <= g < k implies (#[trigger] folds@[g])@ == round_robin(
                    class0@,
                    k as nat,
                    g,
                ) + round_robin(c, k as nat, g) by {
                    if g == f {
                        assert(folds@[g]@ =~= before[g]@.push(v));
                    } else {
                        assert(folds@[g] == before[g]);
                    }
                }
            }
        }
        assert(class1@.take(n1 as int) =~= class1@);
        let mut out: Vec<(Vec<usize>, Vec<usize>)> = Vec::new();
        for f in 0..k
            invariant
                n == y.len(),
                k == self.spec_n_splits(),
                folds@.len() == k,
                forall|g: int|
                    0 <= g < k ==> (#[trigger] folds@[g])@ == stratified_test(classes, k as nat, g),
                forall|i: int| 0 <= i < classes.0.len() ==> #[trigger] classes.0[i] < n,
                forall|i: int| 0 <= i < classes.1.len() ==> #[trigger] classes.1[i] < n,
                out@.len() == f,
                forall|g: int|
                    0 <= g < f ==> (#[trigger] out@[g]).1@ == stratified_test(classes, k as nat, g)
                        && out@[g].0@ == complement(n as nat, stratified_test(classes, k as nat, g)),
        {
            let ghost t = stratified_test(classes, k as nat, f as int);
            proof {
                lemma_round_robin_members(classes.0, k as nat, f as int);
                lemma_round_robin_members(classes.1, k as nat, f as int);
            }
            let m = folds[f].len();
            let test = copy_range(&folds[f], 0, m);
            assert(test@ =~= t);
            assert forall|i: int| 0 <= i < t.len() implies #[trigger] t[i] < n by {
                let r0 = round_robin(classes.0, k as nat, f as int);
                let r1 = round_robin(classes.1, k as nat, f as int);
                if i < r0.len() {
                    assert(r0[i] == t[i]);
                    assert(r0.contains(t[i]));
                } else {
                    assert(r1[i - r0.len()] == t[i]);
                    assert(r1.contains(t[i]));
                }
            }
            let train = complement_of(n, &test);
            out.push((train, test));
        }
        Ok(out)
    }
}

impl Default for StratifiedKFold {
    fn default() -> (r: Self)
        ensures
            r.spec_n_splits() == 5,
            !r.spec_shuffle(),
            r.spec_random_state() == None::<u64>,
    {
        Self::new()
    }
}

/// A member of `round_robin(c, k, f)` is a member of `c` at a position `p`
/// with `p % k == f`, and conversely.
pub proof fn lemma_round_robin_members(c: Seq<usize>, k: nat, f: int)
    requires
        k > 0,
    ensures
        forall|x: usize|
            #[trigger] round_robin(c, k, f).contains(x) <==> exists|p: int|
                0 <= p < c.len() && c[p] == x && p % (k as int) == f,
    decreases c.len(),
{
    if c.len() > 0 {
        let d = c.drop_last();
        lemma_round_robin_members(d, k, f);
        let r = round_robin(c, k, f);
        let rd = round_robin(d, k, f);
        assert forall|x: usize| #[trigger] r.contains(x) <==> exists|p: int|
            0 <= p < c.len() && c[p] == x && p % (k as int) == f by {
            if r.contains(x) {
                let i = choose|i: int| 0 <= i < r.len() && r[i] == x;
                if i < rd.len() {
                    assert(rd[i] == x);
                    assert(rd.contains(x));
                    let p = choose|p: int| 0 <= p < d.len() && d[p] == x && p % (k as int) == f;
                    assert(c[p] == x);
                } else {
                    let p = c.len() - 1;
                    assert(c[p] == x);
                }
            }
            if exists|p: int| 0 <= p < c.len() && c[p] == x && p % (k as int) == f {
                let p = choose|p: int| 0 <= p < c.len() && c[p] == x && p % (k as int) == f;
                if p < c.len() - 1 {
                    assert(d[p] == x);
                    assert(rd.contains(x));
                    let i = choose|i: int| 0 <= i < rd.len() && rd[i] == x;
                    assert(r[i] == x);
                } else {
                    assert(r[rd.len() as int] == x);
                }
            }
        }
    }
}

/// `complement(n, t)` holds exactly the numbers below `n` that `t` lacks.
pub proof fn lemma_complement_members(n: nat, t: Seq<usize>)
    requires
        n <= usize::MAX + 1,
    ensures
        forall|x: usize| #[trigger] complement(n, t).contains(x) <==> (x < n && !t.contains(x)),
    decreases n,
{
    if n > 0 {
        lemma_complement_members((n - 1) as nat, t);
        let c = complement(n, t);
        let cd = complement((n - 1) as nat, t);
        assert forall|x: usize| #[trigger] c.contains(x) <==> (x < n && !t.contains(x)) by {
            if c.contains(x) {
                let i = choose|i: int| 0 <= i < c.len() && c[i] == x;
                if i < cd.len() {
                    assert(cd[i] == x);
                    assert(cd.contains(x));
                }
            }
            if x < n && !t.contains(x) {
                if x < n - 1 {
                    assert(cd.contains(x));
                    let i = choose|i: int| 0 <= i < cd.len() && cd[i] == x;
                    assert(c[i] == x);
                } else {
                    assert(c[cd.len() as int] == x);
                }
            }
        }
    }
}

/// One more element goes to fold `m % k`.
proof fn lemma_div_mod_step(m: int, k: int)
    requires
        m >= 0,
        k > 0,
    ensures
        m % k + 1 < k ==> (m + 1) / k == m / k && (m + 1) % k == m % k + 1,
        m % k + 1 == k ==> (m + 1) / k == m / k + 1 && (m + 1) % k == 0,
{
    vstd::arithmetic::div_mod::lemma_fundamental_div_mod(m, k);
    if m % k + 1 < k {
        assert(m + 1 == (m / k) * k + (m % k + 1)) by (nonlinear_arith)
            requires
                m == k * (m / k) + m % k,
        ;
        vstd::arithmetic::div_mod::lemma_fundamental_div_mod_converse(m + 1, k, m / k, m % k + 1);
    } else {
        assert(m + 1 == (m / k + 1) * k + 0) by (nonlinear_arith)
            requires
                m == k * (m / k) + m % k,
                m % k + 1 == k,
        ;
        vstd::arithmetic::div_mod::lemma_fundamental_div_mod_converse(m + 1, k, m / k + 1, 0);
    }
}

/// Fold `f` receives `fold_size` of the members dealt round-robin.
pub proof fn lemma_round_robin_len(c: Seq<usize>, k: nat, f: int)
    requires
        k > 0,
        0 <= f < k,
    ensures
        round_robin(c, k, f).len() == fold_size(c.len(), k, f),
    decreases c.len(),
{
    if c.len() > 0 {
        let m = c.len() - 1;
        lemma_round_robin_len(c.drop_last(), k, f);
        lemma_div_mod_step(m as int, k as int);
        assert(c.drop_last().len() == m);
        let a = round_robin(c.drop_last(), k, f).len();
        assert(a == m as nat / k + if f < m as nat % k { 1nat } else { 0nat });
        if (m % (k as int)) == f {
            assert(round_robin(c, k, f).len() == a + 1);
        } else {
            assert(round_robin(c, k, f).len() == a);
        }
    } else {
        assert(0nat / k == 0) by (nonlinear_arith)
            requires
                k > 0,
        ;
        assert(0nat % k == 0) by (nonlinear_arith)
            requires
                k > 0,
        ;
    }
}

/// The classes dealt to the folds: each has no duplicates, and together
/// they hold every sample once, by its class.
pub proof fn lemma_stratified_classes(y: Seq<bool>, shuffle: bool, random_state: Option<u64>)
    requires
        y.len() <= usize::MAX,
    ensures
        ({
            let classes = stratified_classes(y, shuffle, random_state);
            &&& classes.0.no_duplicates()
            &&& classes.1.no_duplicates()
            &&& forall|x: usize| #[trigger] classes.0.contains(x) <==> (x < y.len() && !y[x as int])
            &&& forall|x: usize| #[trigger] classes.1.contains(x) <==> (x < y.len() && y[x as int])
        }),
{
    lemma_class_members_bounded(y, false);
    lemma_class_members_bounded(y, true);
    if shuffle {
        let c0 = class_members(y, false);
        let c1 = class_members(y, true);
        let first = shuffle_spec(c0, initial_state(seed_of(random_state)), c0.len());
        lemma_shuffle_same_elements(c0, initial_state(seed_of(random_state)), c0.len());
        lemma_shuffle_same_elements(c1, first.1, c1.len());
    }
}

/// With shuffling, the negatives dealt to the folds are their positions
/// shuffled by a generator seeded from the random state (`Rng::new` then
/// `Rng::shuffle`), and the positives are shuffled by that same generator
/// afterwards; without shuffling, each class keeps the sample order.
pub proof fn lemma_stratified_shuffle_follows_generator(y: Seq<bool>, random_state: Option<u64>)
    ensures
        ({
            let c0 = class_members(y, false);
            let c1 = class_members(y, true);
            let first = shuffle_spec(c0, initial_state(seed_of(random_state)), c0.len());
            let second = shuffle_spec(c1, first.1, c1.len());
            &&& stratified_classes(y, true, random_state) == (first.0, second.0)
            &&& stratified_classes(y, false, random_state) == (c0, c1)
        }),
{
}

/// Where every sample is of class `c`, the positions of `c` are all the
/// positions in order, and the other class is empty.
proof fn lemma_class_members_single(y: Seq<bool>, c: bool)
    requires
        y.len() <= usize::MAX,
        forall|i: int| 0 <= i < y.len() ==> y[i] == c,
    ensures
        class_members(y, c) == range_seq(y.len()),
        class_members(y, !c) == Seq::<usize>::empty(),
    decreases y.len(),
{
    if y.len() > 0 {
        lemma_class_members_single(y.drop_last(), c);
        assert(class_members(y, c) =~= range_seq(y.len()));
        assert(class_members(y, !c) =~= Seq::<usize>::empty());
    }
}

/// Where every sample is of one class, shuffled stratified folds deal that
/// class in the same order as shuffled `KFold` with the same random state
/// orders the samples, and the other class is empty.
pub proof fn lemma_stratified_single_class_like_kfold(
    y: Seq<bool>,
    c: bool,
    random_state: Option<u64>,
)
    requires
        y.len() <= usize::MAX,
        forall|i: int| 0 <= i < y.len() ==> y[i] == c,
    ensures
        ({
            let classes = stratified_classes(y, true, random_state);
            let order = sample_order(y.len(), true, random_state);
            &&& !c ==> classes.0 == order && classes.1 == Seq::<usize>::empty()
            &&& c ==> classes.1 == order && classes.0 == Seq::<usize>::empty()
        }),
{
    lemma_class_members_single(y, c);
}

/// Every sample is tested in exactly one stratified fold.
pub proof fn lemma_stratified_test_partition(
    y: Seq<bool>,
    shuffle: bool,
    random_state: Option<u64>,
    k: nat,
    x: usize,
)
    requires
        y.len() <= usize::MAX,
        k > 0,
        x < y.len(),
    ensures
        ({
            let classes = stratified_classes(y, shuffle, random_state);
            &&& exists|f: int| 0 <= f < k && (#[trigger] stratified_test(classes, k, f)).contains(x)
            &&& forall|f: int, g: int|
                0 <= f < k && 0 <= g < k && (#[trigger] stratified_test(classes, k, f)).contains(x)
                    && (#[trigger] stratified_test(classes, k, g)).contains(x) ==> f == g
        }),
{
    let classes = stratified_classes(y, shuffle, random_state);
    lemma_stratified_classes(y, shuffle, random_state);
    let c = if y[x as int] {
        classes.1
    } else {
        classes.0
    };
    let other = if y[x as int] {
        classes.0
    } else {
        classes.1
    };
    assert(c.contains(x));
    assert(!other.contains(x));
    let p = choose|p: int| 0 <= p < c.len() && c[p] == x;
    let f0 = p % (k as int);
    assert forall|f: int| 0 <= f < k implies (#[trigger] stratified_test(classes, k, f)).contains(x)
        == (f == f0) by {
        lemma_round_robin_members(classes.0, k, f);
        lemma_round_robin_members(classes.1, k, f);
        let t = stratified_test(classes, k, f);
        let r0 = round_robin(classes.0, k, f);
        let r1 = round_robin(classes.1, k, f);
        let rc = if y[x as int] {
            r1
        } else {
            r0
        };
        let ro = if y[x as int] {
            r0
        } else {
            r1
        };
        if ro.contains(x) {
            let q = choose|q: int| 0 <= q < other.len() && other[q] == x && q % (k as int) == f;
            assert(other.contains(x));
        }
        if rc.contains(x) {
            let q = choose|q: int| 0 <= q < c.len() && c[q] == x && q % (k as int) == f;
            assert(q == p);
        }
        if f == f0 {
            assert(rc.contains(x));
        }
        if t.contains(x) {
            let i = choose|i: int| 0 <= i < t.len() && t[i] == x;
            if i < r0.len() {
                assert(r0[i] == x);
                assert(r0.contains(x));
            } else {
                assert(r1[i - r0.len()] == x);
                assert(r1.contains(x));
            }
        }
        if r0.contains(x) {
            let i = choose|i: int| 0 <= i < r0.len() && r0[i] == x;
            assert(t[i] == x);
        }
        if r1.contains(x) {
            let i = choose|i: int| 0 <= i < r1.len() && r1[i] == x;
            assert(t[r0.len() + i] == x);
        }
    }
    assert(0 <= f0 < k);
    assert(stratified_test(classes, k, f0).contains(x));
}

/// Each class is spread evenly: two folds receive as many of its samples,
/// or one more.
pub proof fn lemma_stratified_balance(
    y: Seq<bool>,
    shuffle: bool,
    random_state: Option<u64>,
    k: nat,
    f: int,
    g: int,
)
    requires
        k > 0,
        0 <= f <= g < k,
    ensures
        ({
            let classes = stratified_classes(y, shuffle, random_state);
            &&& round_robin(classes.0, k, g).len() <= round_robin(classes.0, k, f).len()
                <= round_robin(classes.0, k, g).len() + 1
            &&& round_robin(classes.1, k, g).len() <= round_robin(classes.1, k, f).len()
                <= round_robin(classes.1, k, g).len() + 1
        }),
{
    let classes = stratified_classes(y, shuffle, random_state);
    lemma_round_robin_len(classes.0, k, f);
    lemma_round_robin_len(classes.0, k, g);
    lemma_round_robin_len(classes.1, k, f);
    lemma_round_robin_len(classes.1, k, g);
}

/// The numbers below `n` that `t` does not hold, in order.
fn complement_of(n: usize, t: &Vec<usize>) -> (r: Vec<usize>)
    requires
        forall|i: int| 0 <= i < t@.len() ==> #[trigger] t@[i] < n,
    ensures
        r@ == complement(n as nat, t@),
{
    let mut mask: Vec<bool> = Vec::new();
    for i in 0..n
        invariant
            mask@.len() == i,
            forall|j: int| 0 <= j < i ==> !(#[trigger] mask@[j]),
    {
        mask.push(false);
    }
    let m = t.len();
    for q in 0..m
        invariant
            m == t@.len(),
            mask@.len() == n,
            forall|i: int| 0 <= i < t@.len() ==> #[trigger] t@[i] < n,
            forall|j: int| 0 <= j < n ==> (#[trigger] mask@[j] <==> t@.take(q as int).contains(j as usize)),
    {
        let v = t[q];
        mask.set(v, true);
        proof {
            let tq = t@.take(q + 1);
            assert forall|j: int| 0 <= j < n implies (#[trigger] mask@[j] <==> tq.contains(j as usize)) by {
                if tq.contains(j as usize) {
                    let i = choose|i: int| 0 <= i < tq.len() && tq[i] == j as usize;
                    if i < q {
                        assert(t@.take(q as int)[i] == j as usize);
                    }
                }
                if t@.take(q as int).contains(j as usize) {
                    let i = choose|i: int| 0 <= i < q && t@.take(q as int)[i] == j as usize;
                    assert(tq[i] == j as usize);
                }
                if j == v {
                    assert(tq[q as int] == v);
                }
            }
        }
    }
    assert(t@.take(m as int) =~= t@);
    let mut out: Vec<usize> = Vec::new();
    for i in 0..n
        invariant
            mask@.len() == n,
            forall|j: int| 0 <= j < n ==> (#[trigger] mask@[j] <==> t@.contains(j as usize)),
            out@ == complement(i as nat, t@),
    {
        if !mask[i] {
            out.push(i);
        }
    }
    out
}

} // verus!
