//! The "minimal standard" multiplicative linear congruential generator of
//! Park and Miller: `x -> 16807 * x mod (2^31 - 1)`, computed with Schrage's
//! decomposition so that no intermediate value exceeds 32 bits.
use vstd::prelude::*;
use crate::random::{Random, valid_draws, is_draw_run, lemma_run_shift, zeros};

verus! {

/// The modulus `2^31 - 1`, a prime.
pub const MODULUS: u64 = 2147483647;

/// The multiplier `7^5`.
pub const MULTIPLIER: u64 = 16807;

/// `MODULUS / MULTIPLIER`.
const SCHRAGE_Q: u64 = 127773;

/// `MODULUS % MULTIPLIER`.
const SCHRAGE_R: u64 = 2836;

/// One step of the generator.
pub open spec fn lcg_next(x: int) -> int {
    (MULTIPLIER * x) % (MODULUS as int)
}

/// The state after `n` steps from `x`.
pub open spec fn lcg_iter(x: int, n: nat) -> int
    decreases n,
{
    if n == 0 {
        x
    } else {
        lcg_next(lcg_iter(x, (n - 1) as nat))
    }
}

/// The state that a seed starts the generator in: the seed reduced modulo
/// `MODULUS`, where zero (a fixed point of the recurrence) becomes one.
pub open spec fn seed_state(seed: u64) -> int {
    let s = seed % MODULUS;
    if s == 0 {
        1
    } else {
        s as int
    }
}

/// A state of the generator: an integer in `[1, MODULUS - 1]`.
pub open spec fn valid_state(x: int) -> bool {
    1 <= x < MODULUS
}

/// The inverse of `MULTIPLIER` modulo `MODULUS`.
const MULTIPLIER_INVERSE: u64 = 1407677000;

/// A step never leaves the valid states: as `MULTIPLIER` is invertible
/// modulo `MODULUS`, the product of two residues prime to it is never zero.
pub proof fn lemma_next_valid(x: int)
    requires
        valid_state(x),
    ensures
        valid_state(lcg_next(x)),
{
    let m = MODULUS as int;
    let inv = MULTIPLIER_INVERSE as int;
    let y = (MULTIPLIER * x) % m;
    assert(0 <= y < m) by {
        vstd::arithmetic::div_mod::lemma_mod_bound(MULTIPLIER * x, m);
    }
    if y == 0 {
        assert(inv * MULTIPLIER == 1 + 11015 * m);
        vstd::arithmetic::div_mod::lemma_mul_mod_noop_right(inv, MULTIPLIER * x, m);
        assert((inv * (MULTIPLIER * x)) % m == 0) by {
            vstd::arithmetic::div_mod::lemma_mod_self_0(m);
            assert(inv * 0 == 0);
        }
        assert(inv * (MULTIPLIER * x) == x + (11015 * x) * m) by (nonlinear_arith)
            requires
                inv * MULTIPLIER == 1 + 11015 * m,
        ;
        vstd::arithmetic::div_mod::lemma_mod_multiples_vanish(11015 * x, x, m);
        vstd::arithmetic::div_mod::lemma_small_mod(x as nat, m as nat);
        assert(false);
    }
}

/// Every state reached from a valid state is valid.
pub proof fn lemma_iter_valid(x: int, n: nat)
    requires
        valid_state(x),
    ensures
        valid_state(lcg_iter(x, n)),
    decreases n,
{
    if n > 0 {
        lemma_iter_valid(x, (n - 1) as nat);
        lemma_next_valid(lcg_iter(x, (n - 1) as nat));
    }
}

/// Steps compose: `a` steps followed by `b` steps are `a + b` steps.
pub proof fn lemma_iter_add(x: int, a: nat, b: nat)
    ensures
        lcg_iter(lcg_iter(x, a), b) == lcg_iter(x, a + b),
    decreases b,
{
    if b > 0 {
        lemma_iter_add(x, a, (b - 1) as nat);
    }
}

/// The integer generator. Its state is always in `[1, MODULUS - 1]`.
#[derive(Clone, Debug)]
pub struct ParkMiller {
    seed: u64,
}

impl View for ParkMiller {
    type V = int;

    /// The current state of the recurrence.
    closed spec fn view(&self) -> int {
        self.seed as int
    }
}

impl ParkMiller {
    /// The generator holds a valid state.
    pub open spec fn wf(&self) -> bool {
        valid_state(self@)
    }

    /// Reduces a seed to a valid state, as `seed_state` states.
    fn normalize(seed: u64) -> (r: u64)
        ensures
            r as int == seed_state(seed),
    {
        let s = seed % MODULUS;
        if s == 0 {
            1
        } else {
            s
        }
    }

    /// A generator started from `seed`.
    pub fn new(seed: u64) -> (r: ParkMiller)
        ensures
            r@ == seed_state(seed),
            r.wf(),
    {
        ParkMiller { seed: Self::normalize(seed) }
    }

    /// Restarts the generator from `seed`.
    pub fn set_seed(&mut self, seed: u64)
        ensures
            final(self)@ == seed_state(seed),
            final(self).wf(),
    {
        self.seed = Self::normalize(seed);
    }

    /// The largest integer the generator returns.
    pub fn max(&self) -> (r: u64)
        ensures
            r == MODULUS - 1,
    {
        MODULUS - 1
    }

    /// Advances the recurrence one step and returns the new state, an
    /// integer in `[1, MODULUS - 1]`.
    pub fn get_one_random_integer(&mut self) -> (r: u64)
        requires
            old(self).wf(),
        ensures
            r as int == lcg_next(old(self)@),
            final(self)@ == r as int,
            final(self).wf(),
    {
        let x = self.seed;
        let k = x / SCHRAGE_Q;
        let lo = x - k * SCHRAGE_Q;
        let plus = MULTIPLIER * lo;
        let minus = k * SCHRAGE_R;
        proof {
            lemma_schrage(x as int);
            lemma_next_valid(x as int);
        }
        let next = if plus >= minus {
            plus - minus
        } else {
            plus + MODULUS - minus
        };
        self.seed = next;
        next
    }
}

/// Schrage's decomposition computes the product modulo `MODULUS` from
/// quantities below `MODULUS`.
proof fn lemma_schrage(x: int)
    requires
        valid_state(x),
    ensures
        ({
            let k = x / SCHRAGE_Q as int;
            let lo = x - k * SCHRAGE_Q;
            let plus = MULTIPLIER * lo;
            let minus = k * SCHRAGE_R;
            &&& 0 <= lo < SCHRAGE_Q
            &&& 0 <= plus < MODULUS
            &&& 0 <= minus < MODULUS
            &&& lcg_next(x) == if plus >= minus {
                plus - minus
            } else {
                plus + MODULUS - minus
            }
        }),
{
    let m = MODULUS as int;
    let q = SCHRAGE_Q as int;
    let k = x / q;
    let lo = x - k * q;
    vstd::arithmetic::div_mod::lemma_fundamental_div_mod(x, q);
    vstd::arithmetic::div_mod::lemma_mod_bound(x, q);
    assert(0 <= k <= 16807) by {
        vstd::arithmetic::div_mod::lemma_div_is_ordered(x, m, q);
        assert(m / q == 16807);
        vstd::arithmetic::div_mod::lemma_div_pos_is_pos(x, q);
    }
    let plus = MULTIPLIER * lo;
    let minus = k * SCHRAGE_R;
    assert(0 <= plus < m) by (nonlinear_arith)
        requires
            0 <= lo < 127773,
            plus == 16807 * lo,
            m == 2147483647,
    ;
    assert(0 <= minus < m) by (nonlinear_arith)
        requires
            0 <= k <= 16807,
            minus == k * 2836,
            m == 2147483647,
    ;
    // MULTIPLIER * x == k * m + (plus - minus), since MULTIPLIER * q + R == m
    assert(MULTIPLIER * x == k * m + (plus - minus)) by (nonlinear_arith)
        requires
            x == k * 127773 + lo,
            plus == 16807 * lo,
            minus == k * 2836,
            m == 2147483647,
    ;
    let t = if plus >= minus {
        plus - minus
    } else {
        plus + m - minus
    };
    assert(0 <= t < m);
    if plus >= minus {
        vstd::arithmetic::div_mod::lemma_mod_multiples_vanish(k, plus - minus, m);
    } else {
        assert(MULTIPLIER * x == (k - 1) * m + t) by (nonlinear_arith)
            requires
                MULTIPLIER * x == k * m + (plus - minus),
                t == plus + m - minus,
        ;
        vstd::arithmetic::div_mod::lemma_mod_multiples_vanish(k - 1, t, m);
    }
    vstd::arithmetic::div_mod::lemma_small_mod(t as nat, m as nat);
}

/// The `k`-th vector of length `d` drawn from state `x`: entry `i` is the
/// state after `k * d + i + 1` steps.
pub open spec fn park_miller_draw(x: int, d: nat, k: nat) -> Seq<u64> {
    Seq::new(d, |i: int| lcg_iter(x, (k * d + i + 1) as nat) as u64)
}

/// Drawing `n` vectors of length `d` advances the state by `n * d` steps.
pub proof fn lemma_draw_shift(x: int, d: nat, n: nat, k: nat)
    ensures
        park_miller_draw(lcg_iter(x, n * d), d, k) == park_miller_draw(x, d, (k + n) as nat),
{
    assert forall|i: int| 0 <= i < d implies #[trigger] park_miller_draw(
        lcg_iter(x, n * d),
        d,
        k,
    )[i] == park_miller_draw(x, d, (k + n) as nat)[i] by {
        lemma_iter_add(x, n * d, (k * d + i + 1) as nat);
        assert(n * d + (k * d + i + 1) == (k + n) * d + i + 1) by (nonlinear_arith);
    }
    assert(park_miller_draw(lcg_iter(x, n * d), d, k) =~= park_miller_draw(x, d, (k + n) as nat));
}

/// The vectors drawn from a valid state are valid.
pub proof fn lemma_draw_valid(x: int, d: nat, k: nat)
    requires
        valid_state(x),
    ensures
        park_miller_draw(x, d, k).len() == d,
        valid_draws(park_miller_draw(x, d, k)),
{
    assert forall|i: int| 0 <= i < d implies valid_state(
        #[trigger] park_miller_draw(x, d, k)[i] as int,
    ) by {
        lemma_iter_valid(x, (k * d + i + 1) as nat);
    }
}

/// A stream of vectors of uniform variates over the Park-Miller generator.
#[derive(Clone, Debug)]
pub struct RandomParkMiller {
    dimensionality: usize,
    generator: ParkMiller,
    initial_seed: u64,
}

impl RandomParkMiller {
    /// A stream of vectors of length `dimensionality` started from `seed`.
    pub fn new(dimensionality: usize, seed: u64) -> (r: RandomParkMiller)
        ensures
            r.wf(),
            r.dim() == dimensionality,
            r.start_seed() == seed,
            forall|k: nat| #[trigger]
                r.upcoming(k) == park_miller_draw(seed_state(seed), dimensionality as nat, k),
            forall|s: u64, k: nat| #[trigger]
                r.seeded(s, k) == park_miller_draw(seed_state(s), dimensionality as nat, k),
    {
        RandomParkMiller { dimensionality, generator: ParkMiller::new(seed), initial_seed: seed }
    }

    /// After seeding with `seed`, the stream hands out the Park-Miller
    /// vectors from `seed_state(seed)` at its current dimensionality.
    pub proof fn lemma_seeded_draws(&self, seed: u64, k: nat)
        ensures
            self.seeded(seed, k) == park_miller_draw(seed_state(seed), self.dim(), k),
    {
    }
}

impl Random for RandomParkMiller {
    closed spec fn dim(&self) -> nat {
        self.dimensionality as nat
    }

    closed spec fn wf(&self) -> bool {
        self.generator.wf()
    }

    closed spec fn start_seed(&self) -> u64 {
        self.initial_seed
    }

    closed spec fn upcoming(&self, k: nat) -> Seq<u64> {
        park_miller_draw(self.generator@, self.dimensionality as nat, k)
    }

    closed spec fn seeded(&self, seed: u64, k: nat) -> Seq<u64> {
        park_miller_draw(seed_state(seed), self.dimensionality as nat, k)
    }

    proof fn lemma_upcoming_valid(&self, k: nat) {
        lemma_draw_valid(self.generator@, self.dimensionality as nat, k);
    }

    fn get_dimensionality(&self) -> (r: usize) {
        self.dimensionality
    }

    fn get_uniforms(&mut self, variates: &mut Vec<u64>) {
        let ghost x = self.generator@;
        let ghost buffer = variates@;
        let d = self.dimensionality;
        let mut i: usize = 0;
        while i < d
            invariant
                i <= d,
                d == self.dimensionality,
                d <= buffer.len(),
                self.initial_seed == old(self).initial_seed,
                self.generator.wf(),
                self.generator@ == lcg_iter(x, i as nat),
                variates@ == park_miller_draw(x, d as nat, 0).subrange(0, i as int)
                    + buffer.subrange(i as int, buffer.len() as int),
            decreases d - i,
        {
            let v = self.generator.get_one_random_integer();
            variates.set(i, v);
            i = i + 1;
            assert(variates@ =~= park_miller_draw(x, d as nat, 0).subrange(0, i as int)
                + buffer.subrange(i as int, buffer.len() as int));
        }
        proof {
            assert(park_miller_draw(x, d as nat, 0).subrange(0, d as int) =~= park_miller_draw(
                x,
                d as nat,
                0,
            ));
            assert forall|k: nat| #[trigger]
                self.upcoming(k) == old(self).upcoming((k + 1) as nat) by {
                lemma_draw_shift(x, d as nat, 1, k);
                assert(1 * d == d);
            }
        }
    }

    fn skip(&mut self, number_of_paths: usize) {
        let mut tmp = zeros(self.dimensionality);
        let mut j: usize = 0;
        while j < number_of_paths
            invariant
                j <= number_of_paths,
                tmp@.len() == self.dim(),
                self.wf(),
                self.dim() == old(self).dim(),
                self.start_seed() == old(self).start_seed(),
                forall|k: nat| #[trigger] self.upcoming(k) == old(self).upcoming((k + j) as nat),
                forall|s: u64, k: nat| #[trigger] self.seeded(s, k) == old(self).seeded(s, k),
            decreases number_of_paths - j,
        {
            let ghost before = *self;
            self.get_uniforms(&mut tmp);
            j = j + 1;
            assert forall|k: nat| #[trigger] self.upcoming(k) == old(self).upcoming((k + j) as nat) by {
                assert(self.upcoming(k) == before.upcoming((k + 1) as nat));
                assert(before.upcoming((k + 1) as nat) == old(self).upcoming((k + 1 + (j - 1)) as nat));
            }
        }
    }

    fn set_seed(&mut self, seed: u64) {
        self.initial_seed = seed;
        self.generator.set_seed(seed);
    }

    fn reset(&mut self) {
        self.generator.set_seed(self.initial_seed);
    }

    fn reset_dimensionality(&mut self, new_dimensionality: usize) {
        self.dimensionality = new_dimensionality;
        self.generator.set_seed(self.initial_seed);
    }
}

/// Two streams built with the same dimensionality and seed, drawn the same
/// number of times, hand out the same vectors: `a[i]` and `b[i]` are the
/// states before the `i`-th call of each run, and the call returns
/// `upcoming(0)`.
pub proof fn lemma_same_seed_same_draws(
    a: Seq<RandomParkMiller>,
    b: Seq<RandomParkMiller>,
    dimensionality: usize,
    seed: u64,
)
    requires
        is_draw_run(a),
        is_draw_run(b),
        a.len() == b.len(),
        a.len() > 0,
        forall|k: nat| #[trigger]
            a[0].upcoming(k) == park_miller_draw(seed_state(seed), dimensionality as nat, k),
        forall|k: nat| #[trigger]
            b[0].upcoming(k) == park_miller_draw(seed_state(seed), dimensionality as nat, k),
    ensures
        forall|i: int| 0 <= i < a.len() ==> #[trigger] a[i].upcoming(0) == b[i].upcoming(0),
{
    assert forall|i: int| 0 <= i < a.len() implies #[trigger] a[i].upcoming(0) == b[i].upcoming(
        0,
    ) by {
        lemma_run_shift(a, i, 0);
        lemma_run_shift(b, i, 0);
    }
}

} // verus!
