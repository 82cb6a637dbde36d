//! A deterministic seedable generator (xorshift64) and the Fisher-Yates
//! shuffle driven by it, so that shuffled splits are reproducible.

use vstd::prelude::*;

verus! {

/// The state used when the seed is zero (xorshift never leaves zero).
pub const DEFAULT_SEED: u64 = 0x9E3779B97F4A7C15u64;

/// One step of xorshift64.
pub open spec fn xorshift(s: u64) -> u64 {
    let a = s ^ (s << 13u64);
    let b = a ^ (a >> 7u64);
    b ^ (b << 17u64)
}

/// The state of a generator created from `seed`.
pub open spec fn initial_state(seed: u64) -> u64 {
    if seed == 0 {
        DEFAULT_SEED
    } else {
        seed
    }
}

/// `p` with the elements at `i` and `j` exchanged.
pub open spec fn swapped<T>(p: Seq<T>, i: int, j: int) -> Seq<T> {
    p.update(i, p[j]).update(j, p[i])
}

/// Fisher-Yates on the first `k` positions of `p`: for `k, k-1, ..., 2`, draw
/// the next number and exchange position `k-1` with that number modulo `k`.
/// Gives the shuffled sequence and the final state.
pub open spec fn shuffle_spec(p: Seq<usize>, state: u64, k: nat) -> (Seq<usize>, u64)
    decreases k,
{
    if k <= 1 {
        (p, state)
    } else {
        let s = xorshift(state);
        let j = (s as int) % (k as int);
        shuffle_spec(swapped(p, k - 1, j), s, (k - 1) as nat)
    }
}

/// `p` lists each number below `n` exactly once.
pub open spec fn is_permutation_of_range(p: Seq<usize>, n: nat) -> bool {
    &&& p.len() == n
    &&& p.no_duplicates()
    &&& forall|x: usize| p.contains(x) <==> x < n
}

/// `p` and `q` hold the same elements, each as often.
pub open spec fn same_elements(p: Seq<usize>, q: Seq<usize>) -> bool {
    &&& p.len() == q.len()
    &&& (p.no_duplicates() <==> q.no_duplicates())
    &&& forall|x: usize| p.contains(x) <==> q.contains(x)
}

/// Exchanging two elements keeps the elements.
pub proof fn lemma_swap_same_elements(p: Seq<usize>, i: int, j: int)
    requires
        0 <= i < p.len(),
        0 <= j < p.len(),
    ensures
        same_elements(swapped(p, i, j), p),
{
    let q = swapped(p, i, j);
    assert forall|x: usize| q.contains(x) <==> p.contains(x) by {
        if q.contains(x) {
            let k = choose|k: int| 0 <= k < q.len() && q[k] == x;
            if k == i {
                assert(p[j] == x);
            } else if k == j {
                assert(p[i] == x);
            } else {
                assert(p[k] == x);
            }
        }
        if p.contains(x) {
            let k = choose|k: int| 0 <= k < p.len() && p[k] == x;
            if k == i {
                assert(q[j] == x);
            } else if k == j {
                assert(q[i] == x);
            } else {
                assert(q[k] == x);
            }
        }
    }
    let pos = |k: int| if k == i { j } else if k == j { i } else { k };
    if p.no_duplicates() {
        assert forall|a: int, b: int| 0 <= a < q.len() && 0 <= b < q.len() && a != b implies q[a]
            != q[b] by {
            assert(q[a] == p[pos(a)]);
            assert(q[b] == p[pos(b)]);
        }
    }
    if q.no_duplicates() {
        assert forall|a: int, b: int| 0 <= a < p.len() && 0 <= b < p.len() && a != b implies p[a]
            != p[b] by {
            assert(p[a] == q[pos(a)]);
            assert(p[b] == q[pos(b)]);
        }
    }
}

/// Shuffling keeps the elements.
pub proof fn lemma_shuffle_same_elements(p: Seq<usize>, state: u64, k: nat)
    requires
        k <= p.len(),
    ensures
        same_elements(shuffle_spec(p, state, k).0, p),
    decreases k,
{
    if k > 1 {
        let s = xorshift(state);
        let j = (s as int) % (k as int);
        lemma_swap_same_elements(p, k - 1, j);
        lemma_shuffle_same_elements(swapped(p, k - 1, j), s, (k - 1) as nat);
    }
}

/// A deterministic seedable generator (xorshift64).
pub struct Rng {
    state: u64,
}

impl Rng {
    /// The current state.
    pub closed spec fn spec_state(&self) -> u64 {
        self.state
    }

    /// A generator seeded with `seed` (a zero seed uses a fixed constant).
    pub fn new(seed: u64) -> (r: Self)
        ensures
            r.spec_state() == initial_state(seed),
    {
        Rng { state: if seed == 0 { DEFAULT_SEED } else { seed } }
    }

    /// The next number: the state after one xorshift step.
    pub fn next_u64(&mut self) -> (r: u64)
        ensures
            r == xorshift(old(self).spec_state()),
            final(self).spec_state() == r,
    {
        let s = self.state;
        let a = s ^ (s << 13u64);
        let b = a ^ (a >> 7u64);
        let c = b ^ (b << 17u64);
        self.state = c;
        c
    }

    /// Shuffles `v` in place with the Fisher-Yates algorithm.
    pub fn shuffle(&mut self, v: &mut Vec<usize>)
        ensures
            (final(v)@, final(self).spec_state()) == shuffle_spec(
                old(v)@,
                old(self).spec_state(),
                old(v)@.len(),
            ),
            same_elements(final(v)@, old(v)@),
    {
        let n = v.len();
        let ghost start = v@;
        let ghost s0 = self.spec_state();
        let mut k = n;
        while k > 1
            invariant
                k <= n,
                n == v@.len(),
                shuffle_spec(v@, self.spec_state(), k as nat) == shuffle_spec(start, s0, n as nat),
            decreases k,
        {
            let r = self.next_u64();
            let j = (r % (k as u64)) as usize;
            let ghost before = v@;
            let a = v[k - 1];
            let b = v[j];
            v.set(k - 1, b);
            v.set(j, a);
            assert(v@ =~= swapped(before, k - 1, j as int));
            k = k - 1;
        }
        proof {
            lemma_shuffle_same_elements(start, s0, n as nat);
        }
    }
}

} // verus!
