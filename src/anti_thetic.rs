//! Antithetic sampling as a decorator over any random stream: every vector
//! drawn from the inner stream is handed out, and on the following call its
//! mirror image `1 - u` is handed out without touching the inner stream.
use vstd::prelude::*;
use crate::park_miller::MODULUS;
use crate::random::{Random, mirror, valid_draws, lemma_mirror, zeros};

verus! {

/// A stream that pairs each vector of the inner stream with its mirror.
#[derive(Clone, Debug)]
pub struct AntiThetic<T: Random> {
    generator: T,
    /// `true` when the next call draws from the inner stream; `false` when
    /// it hands out `next_variates`.
    odd_even: bool,
    next_variates: Vec<u64>,
}

/// The `k`-th outer vector over an inner stream, when the next call draws a
/// fresh vector: inner vectors at even positions, their mirrors at odd ones.
pub open spec fn paired<T: Random>(inner: T, k: nat) -> Seq<u64> {
    if k % 2 == 0 {
        inner.upcoming(k / 2)
    } else {
        mirror(inner.upcoming(k / 2))
    }
}

/// The same over the vectors the inner stream gives after being seeded.
pub open spec fn paired_seeded<T: Random>(inner: T, seed: u64, k: nat) -> Seq<u64> {
    if k % 2 == 0 {
        inner.seeded(seed, k / 2)
    } else {
        mirror(inner.seeded(seed, k / 2))
    }
}

impl<T: Random> AntiThetic<T> {
    /// Decorates `generator`; the first call draws from it.
    pub fn new(generator: T) -> (r: AntiThetic<T>)
        requires
            generator.wf(),
        ensures
            r.wf(),
            r.draws_fresh(),
            r.inner() == generator,
            r.dim() == generator.dim(),
            r.start_seed() == generator.start_seed(),
    {
        AntiThetic { generator, odd_even: true, next_variates: Vec::new() }
    }

    /// The decorated stream.
    pub closed spec fn inner(&self) -> T {
        self.generator
    }

    /// The next call draws from the inner stream rather than handing out a
    /// mirror.
    pub closed spec fn draws_fresh(&self) -> bool {
        self.odd_even
    }

    /// On a fresh draw, the outer vectors are the inner ones interleaved
    /// with their mirrors.
    pub proof fn lemma_fresh_upcoming(&self, k: nat)
        requires
            self.wf(),
            self.draws_fresh(),
        ensures
            self.upcoming(k) == paired(self.inner(), k),
    {
    }

    /// The vectors after seeding interleave the inner stream's vectors after
    /// the same seed with their mirrors.
    pub proof fn lemma_seeded(&self, seed: u64, k: nat)
        ensures
            self.seeded(seed, k) == paired_seeded(self.inner(), seed, k),
    {
    }

    /// Writes the pending mirror into the first entries of `variates`.
    fn copy_pending(&self, variates: &mut Vec<u64>)
        requires
            old(variates)@.len() >= self.next_variates@.len(),
        ensures
            final(variates)@ == self.next_variates@ + old(variates)@.subrange(
                self.next_variates@.len() as int,
                old(variates)@.len() as int,
            ),
    {
        let ghost buffer = variates@;
        let n = self.next_variates.len();
        let mut i: usize = 0;
        while i < n
            invariant
                i <= n,
                n == self.next_variates@.len(),
                n <= buffer.len(),
                variates@ == self.next_variates@.subrange(0, i as int) + buffer.subrange(
                    i as int,
                    buffer.len() as int,
                ),
            decreases n - i,
        {
            variates.set(i, self.next_variates[i]);
            i = i + 1;
            assert(variates@ =~= self.next_variates@.subrange(0, i as int) + buffer.subrange(
                i as int,
                buffer.len() as int,
            ));
        }
        assert(self.next_variates@.subrange(0, n as int) =~= self.next_variates@);
    }
}

/// The mirror of the first `n` entries of `v`, which are valid numerators.
fn mirror_of(v: &Vec<u64>, n: usize) -> (r: Vec<u64>)
    requires
        n <= v@.len(),
        valid_draws(v@.subrange(0, n as int)),
    ensures
        r@ == mirror(v@.subrange(0, n as int)),
{
    let ghost prefix = v@.subrange(0, n as int);
    let mut r: Vec<u64> = Vec::new();
    let mut i: usize = 0;
    while i < n
        invariant
            i <= n,
            n <= v@.len(),
            prefix == v@.subrange(0, n as int),
            valid_draws(prefix),
            r@ == mirror(prefix).subrange(0, i as int),
        decreases n - i,
    {
        assert(crate::random::valid_draw(prefix[i as int]));
        r.push(MODULUS - v[i]);
        i = i + 1;
        assert(r@ =~= mirror(prefix).subrange(0, i as int));
    }
    assert(r@ =~= mirror(prefix));
    r
}

impl<T: Random> Random for AntiThetic<T> {
    closed spec fn dim(&self) -> nat {
        self.generator.dim()
    }

    closed spec fn wf(&self) -> bool {
        &&& self.generator.wf()
        &&& !self.odd_even ==> {
            &&& self.next_variates@.len() == self.generator.dim()
            &&& valid_draws(self.next_variates@)
        }
    }

    closed spec fn start_seed(&self) -> u64 {
        self.generator.start_seed()
    }

    closed spec fn upcoming(&self, k: nat) -> Seq<u64> {
        if self.odd_even {
            paired(self.generator, k)
        } else if k == 0 {
            self.next_variates@
        } else {
            paired(self.generator, (k - 1) as nat)
        }
    }

    closed spec fn seeded(&self, seed: u64, k: nat) -> Seq<u64> {
        paired_seeded(self.generator, seed, k)
    }

    proof fn lemma_upcoming_valid(&self, k: nat) {
        if self.odd_even || k > 0 {
            let j: nat = if self.odd_even { k } else { (k - 1) as nat };
            self.generator.lemma_upcoming_valid(j / 2);
            lemma_mirror(self.generator.upcoming(j / 2));
        }
    }

    fn get_dimensionality(&self) -> (r: usize) {
        self.generator.get_dimensionality()
    }

    fn get_uniforms(&mut self, variates: &mut Vec<u64>) {
        if self.odd_even {
            proof {
                self.generator.lemma_upcoming_valid(0);
            }
            let d = self.generator.get_dimensionality();
            self.generator.get_uniforms(variates);
            proof {
                assert(variates@.subrange(0, d as int) =~= old(self).generator.upcoming(0));
            }
            self.next_variates = mirror_of(variates, d);
            self.odd_even = false;
            proof {
                lemma_mirror(old(self).generator.upcoming(0));
                assert forall|k: nat| #[trigger]
                    self.upcoming(k) == old(self).upcoming((k + 1) as nat) by {
                    if k > 0 {
                        assert((k - 1) / 2 + 1 == (k + 1) / 2);
                    }
                }
            }
        } else {
            self.copy_pending(variates);
            self.odd_even = true;
        }
    }

    fn skip(&mut self, number_of_paths: usize) {
        let mut n = number_of_paths;
        if n == 0 {
            return;
        }
        if !self.odd_even {
            // the pending mirror is consumed without touching the inner stream
            self.odd_even = true;
            n = n - 1;
        }
        let ghost fresh = *self;
        assert forall|k: nat| #[trigger]
            fresh.upcoming(k) == old(self).upcoming((k + number_of_paths - n) as nat) by {}
        self.generator.skip(n / 2);
        assert forall|k: nat| #[trigger]
            self.upcoming(k) == fresh.upcoming((k + 2 * (n / 2)) as nat) by {
            assert((k + 2 * (n / 2)) / 2 == k / 2 + n / 2);
            assert((k + 2 * (n / 2)) % 2 == k % 2);
        }
        if n % 2 == 1 {
            let mut tmp = zeros(self.generator.get_dimensionality());
            let ghost before = *self;
            self.get_uniforms(&mut tmp);
            assert forall|k: nat| #[trigger]
                self.upcoming(k) == old(self).upcoming((k + number_of_paths) as nat) by {
                assert(self.upcoming(k) == before.upcoming((k + 1) as nat));
            }
        }
    }

    fn set_seed(&mut self, seed: u64)
        ensures
            final(self).draws_fresh(),
    {
        self.generator.set_seed(seed);
        self.odd_even = true;
    }

    fn reset(&mut self)
        ensures
            final(self).draws_fresh(),
    {
        self.generator.reset();
        self.odd_even = true;
    }

    fn reset_dimensionality(&mut self, new_dimensionality: usize)
        ensures
            final(self).draws_fresh(),
    {
        self.generator.reset_dimensionality(new_dimensionality);
        self.odd_even = true;
    }
}

/// On a freshly seeded decorated stream, two consecutive calls of
/// `get_uniforms` return `u1` and `u2` with `u2[i] == 1 - u1[i]` for every
/// component, that is `MODULUS - u1[i]` in numerators; and so on for every
/// later pair.
pub proof fn lemma_antithetic_pairs<T: Random>(a: AntiThetic<T>, j: nat)
    requires
        a.wf(),
        a.draws_fresh(),
    ensures
        a.upcoming(2 * j + 1) == mirror(a.upcoming(2 * j)),
        forall|i: int|
            0 <= i < a.dim() ==> #[trigger] a.upcoming(2 * j + 1)[i] == MODULUS - a.upcoming(
                2 * j,
            )[i],
{
    a.lemma_fresh_upcoming(2 * j);
    a.lemma_fresh_upcoming(2 * j + 1);
    assert((2 * j + 1) / 2 == j);
    assert((2 * j) / 2 == j);
    a.lemma_upcoming_valid(2 * j);
}

} // verus!
