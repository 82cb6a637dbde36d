//! Train/test splitting of sample indices.

use vstd::prelude::*;
use crate::error::{is_empty_input, is_shape_mismatch, DatarustError, Result};
use crate::model_selection::kfold::{
    copy_range, lemma_sample_order_is_permutation, range_seq, range_vec, sample_order, seed_of,
};
use crate::model_selection::rng::{initial_state, shuffle_spec, Rng, DEFAULT_SEED};
use crate::text::{decimal, usize_text};

verus! {

/// The number of test samples: the requested count kept within `1..=n-1`,
/// so that both sides are non-empty.
pub open spec fn clamped_test_count(n: nat, n_test: nat) -> nat {
    if n_test < 1 {
        1
    } else if n_test > n - 1 {
        (n - 1) as nat
    } else {
        n_test
    }
}

/// Refuses a sample set with no rows, or whose target count differs from
/// its row count.
pub fn check_split_shape(n: usize, n_targets: usize) -> (r: Result<()>)
    ensures
        n == 0 ==> is_empty_input(r, "X has no rows"@),
        n > 0 && n_targets != n ==> is_shape_mismatch(
            r,
            decimal(n as nat) + " targets"@,
            decimal(n_targets as nat) + " targets"@,
        ),
        n > 0 && n_targets == n ==> r is Ok,
{
    if n == 0 {
        return Err(DatarustError::EmptyInput("X has no rows".to_owned()));
    }
    if n_targets != n {
        let mut expected = usize_text(n);
        expected.append(" targets");
        let mut actual = usize_text(n_targets);
        actual.append(" targets");
        return Err(DatarustError::ShapeMismatch { expected, actual });
    }
    Ok(())
}

/// Splits an order into its first `n_test` entries (test) and the rest
/// (train).
pub fn partition_indices(indices: &Vec<usize>, n_test: usize) -> (r: (Vec<usize>, Vec<usize>))
    requires
        n_test <= indices@.len(),
    ensures
        r.0@ == indices@.take(n_test as int),
        r.1@ == indices@.skip(n_test as int),
{
    let n = indices.len();
    let test = copy_range(indices, 0, n_test);
    let train = copy_range(indices, n_test, n);
    assert(indices@.subrange(0, n_test as int) =~= indices@.take(n_test as int));
    assert(indices@.subrange(n_test as int, n as int) =~= indices@.skip(n_test as int));
    (test, train)
}

/// The `(test, train)` indices of a split of `n` samples: the sample order
/// (`0..n`, shuffled when asked with the given seed or a fixed one) cut
/// after `n_test` entries, kept within `1..=n-1`.
pub fn train_test_indices(n: usize, n_test: usize, shuffle: bool, random_state: Option<u64>) -> (r:
    (Vec<usize>, Vec<usize>))
    requires
        n >= 2,
    ensures
        ({
            let order = sample_order(n as nat, shuffle, random_state);
            let k = clamped_test_count(n as nat, n_test as nat) as int;
            &&& r.0@ == order.take(k)
            &&& r.1@ == order.skip(k)
        }),
        r.0@.len() + r.1@.len() == n,
        r.0@ + r.1@ == sample_order(n as nat, shuffle, random_state),
        shuffle ==> r.0@ + r.1@ == shuffle_spec(
            range_seq(n as nat),
            initial_state(seed_of(random_state)),
            n as nat,
        ).0,
        !shuffle ==> r.0@ + r.1@ == range_seq(n as nat),
        1 <= n_test < n ==> r.0@.len() == n_test,
        n_test == 0 ==> r.0@.len() == 1,
        n_test >= n ==> r.0@.len() == n - 1,
{
    let mut indices = range_vec(n);
    if shuffle {
        let seed = match random_state {
            Some(s) => s,
            None => DEFAULT_SEED,
        };
        let mut rng = Rng::new(seed);
        rng.shuffle(&mut indices);
    }
    assert(indices@ == sample_order(n as nat, shuffle, random_state));
    let k = if n_test < 1 {
        1
    } else if n_test > n - 1 {
        n - 1
    } else {
        n_test
    };
    let r = partition_indices(&indices, k);
    proof {
        lemma_sample_order_is_permutation(n as nat, shuffle, random_state);
        assert(r.0@ + r.1@ =~= indices@);
    }
    r
}

/// Every sample lands on exactly one side of a split, and both sides are
/// non-empty.
pub proof fn lemma_split_partitions(n: nat, n_test: nat, shuffle: bool, random_state: Option<u64>)
    requires
        2 <= n <= usize::MAX,
    ensures
        ({
            let order = sample_order(n, shuffle, random_state);
            let k = clamped_test_count(n, n_test) as int;
            &&& order.take(k).len() >= 1
            &&& order.skip(k).len() >= 1
            &&& order.take(k).len() + order.skip(k).len() == n
            &&& forall|x: usize|
                x < n ==> (#[trigger] order.take(k).contains(x) || order.skip(k).contains(x))
            &&& forall|x: usize|
                !(#[trigger] order.take(k).contains(x) && order.skip(k).contains(x))
        }),
{
    let order = sample_order(n, shuffle, random_state);
    let k = clamped_test_count(n, n_test) as int;
    lemma_sample_order_is_permutation(n, shuffle, random_state);
    let te = order.take(k);
    let tr = order.skip(k);
    assert forall|x: usize| x < n implies (#[trigger] te.contains(x) || tr.contains(x)) by {
        assert(order.contains(x));
        let p = choose|p: int| 0 <= p < n && order[p] == x;
        if p < k {
            assert(te[p] == x);
        } else {
            assert(tr[p - k] == x);
        }
    }
    assert forall|x: usize| !(#[trigger] te.contains(x) && tr.contains(x)) by {
        if te.contains(x) && tr.contains(x) {
            let i = choose|i: int| 0 <= i < te.len() && te[i] == x;
            let j = choose|j: int| 0 <= j < tr.len() && tr[j] == x;
            assert(order[i] == x);
            assert(order[k + j] == x);
        }
    }
}

/// The test side holds as many samples as asked whenever that leaves both
/// sides non-empty; otherwise the count is moved to the nearest such
/// count: one sample, or all but one.
pub proof fn lemma_test_count_as_asked(n: nat, n_test: nat)
    requires
        n >= 2,
    ensures
        1 <= n_test < n ==> clamped_test_count(n, n_test) == n_test,
        n_test == 0 ==> clamped_test_count(n, n_test) == 1,
        n_test >= n ==> clamped_test_count(n, n_test) == n - 1,
        1 <= clamped_test_count(n, n_test) <= n - 1,
{
}

} // verus!
