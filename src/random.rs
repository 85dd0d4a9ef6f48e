//! The random-stream capability.
//!
//! A stream hands out vectors of uniform variates, one vector per call. A
//! variate is held exactly as an integer numerator `v` in `[1, MODULUS - 1]`
//! standing for the fraction `v / MODULUS`, which lies strictly inside
//! `(0, 1)`. The stream is deterministic: its whole future is a function of
//! its state, described by `upcoming`.
use vstd::prelude::*;
use crate::park_miller::{MODULUS, valid_state};

verus! {

/// A numerator of a uniform variate: `v / MODULUS` lies in `(0, 1)`.
pub open spec fn valid_draw(v: u64) -> bool {
    valid_state(v as int)
}

/// Every entry of the vector is a valid numerator.
pub open spec fn valid_draws(v: Seq<u64>) -> bool {
    forall|i: int| 0 <= i < v.len() ==> valid_draw(#[trigger] v[i])
}

/// The antithetic image of a vector: `v / MODULUS` becomes
/// `1 - v / MODULUS`, that is the numerator `MODULUS - v`.
pub open spec fn mirror(v: Seq<u64>) -> Seq<u64> {
    Seq::new(v.len(), |i: int| (MODULUS - v[i]) as u64)
}

/// Mirroring keeps numerators valid, and mirroring twice gives the vector
/// back.
pub proof fn lemma_mirror(v: Seq<u64>)
    requires
        valid_draws(v),
    ensures
        valid_draws(mirror(v)),
        mirror(mirror(v)) == v,
{
    assert(mirror(mirror(v)) =~= v);
}

/// `states` is a run of calls of `get_uniforms`: each state is the one the
/// call on its predecessor leaves.
pub open spec fn is_draw_run<T: Random>(states: Seq<T>) -> bool {
    &&& forall|i: int| 0 <= i < states.len() ==> (#[trigger] states[i]).wf()
    &&& forall|i: int, k: nat|
        0 <= i < states.len() - 1 ==> #[trigger] states[i + 1].upcoming(k) == states[i].upcoming(
            (k + 1) as nat,
        )
}

/// After `i` calls the stream looks `i` vectors further ahead.
pub proof fn lemma_run_shift<T: Random>(states: Seq<T>, i: int, k: nat)
    requires
        is_draw_run(states),
        0 <= i < states.len(),
    ensures
        states[i].upcoming(k) == states[0].upcoming((k + i) as nat),
    decreases i,
{
    if i > 0 {
        lemma_run_shift(states, i - 1, (k + 1) as nat);
        assert(states[(i - 1) + 1].upcoming(k) == states[i - 1].upcoming((k + 1) as nat));
    }
}

/// Skipping `n` vectors and then drawing gives the vector that `n` calls of
/// `get_uniforms` followed by one more give: `skipped` is the state that
/// `skip(n)` leaves from `states[0]`, and `states` holds the `n` calls.
pub proof fn lemma_skip_matches_draws<T: Random>(states: Seq<T>, skipped: T, n: nat)
    requires
        is_draw_run(states),
        states.len() == n + 1,
        forall|k: nat| #[trigger] skipped.upcoming(k) == states[0].upcoming((k + n) as nat),
    ensures
        forall|k: nat| #[trigger] skipped.upcoming(k) == states[n as int].upcoming(k),
        skipped.upcoming(0) == states[n as int].upcoming(0),
{
    assert forall|k: nat| #[trigger] skipped.upcoming(k) == states[n as int].upcoming(k) by {
        lemma_run_shift(states, n as int, k);
    }
}

/// A vector of `n` zeros, a buffer for one draw.
pub fn zeros(n: usize) -> (r: Vec<u64>)
    ensures
        r@ == Seq::new(n as nat, |i: int| 0u64),
{
    let mut r: Vec<u64> = Vec::new();
    let mut i: usize = 0;
    while i < n
        invariant
            i <= n,
            r@ == Seq::new(i as nat, |j: int| 0u64),
        decreases n - i,
    {
        r.push(0);
        i = i + 1;
        assert(r@ =~= Seq::new(i as nat, |j: int| 0u64));
    }
    r
}

/// A deterministic source of vectors of uniform variates.
pub trait Random: Sized {
    /// The length of each vector handed out.
    spec fn dim(&self) -> nat;

    /// The state is consistent.
    spec fn wf(&self) -> bool;

    /// The seed that `reset` returns to.
    spec fn start_seed(&self) -> u64;

    /// The vector that the `k`-th call of `get_uniforms` from now returns
    /// (`k == 0` for the next one).
    spec fn upcoming(&self, k: nat) -> Seq<u64>;

    /// The `k`-th vector after the stream is seeded with `seed`, at the
    /// current dimensionality.
    spec fn seeded(&self, seed: u64, k: nat) -> Seq<u64>;

    /// Each vector has the stream's dimensionality and valid numerators.
    proof fn lemma_upcoming_valid(&self, k: nat)
        requires
            self.wf(),
        ensures
            self.upcoming(k).len() == self.dim(),
            valid_draws(self.upcoming(k)),
    ;

    fn get_dimensionality(&self) -> (r: usize)
        requires
            self.wf(),
        ensures
            r == self.dim(),
    ;

    /// Writes the next vector into the first `dim()` entries of `variates`,
    /// leaving the rest as it was, and advances the stream by one.
    fn get_uniforms(&mut self, variates: &mut Vec<u64>)
        requires
            old(self).wf(),
            old(variates)@.len() >= old(self).dim(),
        ensures
            final(self).wf(),
            final(self).dim() == old(self).dim(),
            final(self).start_seed() == old(self).start_seed(),
            final(variates)@ == old(self).upcoming(0) + old(variates)@.subrange(
                old(self).dim() as int,
                old(variates)@.len() as int,
            ),
            forall|k: nat| #[trigger] final(self).upcoming(k) == old(self).upcoming((k + 1) as nat),
            forall|s: u64, k: nat| #[trigger] final(self).seeded(s, k) == old(self).seeded(s, k),
    ;

    /// Advances the stream as if `number_of_paths` vectors had been drawn.
    fn skip(&mut self, number_of_paths: usize)
        requires
            old(self).wf(),
        ensures
            final(self).wf(),
            final(self).dim() == old(self).dim(),
            final(self).start_seed() == old(self).start_seed(),
            forall|k: nat| #[trigger]
                final(self).upcoming(k) == old(self).upcoming((k + number_of_paths) as nat),
            forall|s: u64, k: nat| #[trigger] final(self).seeded(s, k) == old(self).seeded(s, k),
    ;

    /// Restarts the stream from `seed`, which `reset` returns to from now on.
    fn set_seed(&mut self, seed: u64)
        requires
            old(self).wf(),
        ensures
            final(self).wf(),
            final(self).dim() == old(self).dim(),
            final(self).start_seed() == seed,
            forall|k: nat| #[trigger] final(self).upcoming(k) == old(self).seeded(seed, k),
            forall|s: u64, k: nat| #[trigger] final(self).seeded(s, k) == old(self).seeded(s, k),
    ;

    /// Restarts the stream from its last seed.
    fn reset(&mut self)
        requires
            old(self).wf(),
        ensures
            final(self).wf(),
            final(self).dim() == old(self).dim(),
            final(self).start_seed() == old(self).start_seed(),
            forall|k: nat| #[trigger]
                final(self).upcoming(k) == old(self).seeded(old(self).start_seed(), k),
            forall|s: u64, k: nat| #[trigger] final(self).seeded(s, k) == old(self).seeded(s, k),
    ;

    /// Changes the length of the vectors and restarts from the last seed.
    fn reset_dimensionality(&mut self, new_dimensionality: usize)
        requires
            old(self).wf(),
        ensures
            final(self).wf(),
            final(self).dim() == new_dimensionality,
            final(self).start_seed() == old(self).start_seed(),
            forall|k: nat| #[trigger]
                final(self).upcoming(k) == final(self).seeded(old(self).start_seed(), k),
    ;
}

} // verus!
