//! A convergence table records the running estimate of a Monte Carlo
//! simulation each time the number of paths done reaches a power of two
//! (2, 4, 8, ...), so that convergence can be read off one run.
//!
//! The table is fed, path by path, the estimate that the wrapped gatherer
//! gives after that path's result; it is generic over the type of that
//! estimate.
use vstd::prelude::*;

verus! {

/// `2^n`.
pub open spec fn power_of_two(n: nat) -> nat
    decreases n,
{
    if n == 0 {
        1
    } else {
        2 * power_of_two((n - 1) as nat)
    }
}

/// `floor(log2(n))` for `n >= 1`, and 0 for `n == 0`.
pub open spec fn log2_floor(n: nat) -> nat
    decreases n,
{
    if n < 2 {
        0
    } else {
        1 + log2_floor(n / 2)
    }
}

/// The rows recorded after the estimates `dumped` (one per path, in order):
/// row `i` holds the estimate after `2^(i+1)` paths and that path count.
pub open spec fn recorded_rows<R>(dumped: Seq<R>) -> Seq<(R, u64)> {
    Seq::new(
        log2_floor(dumped.len()),
        |i: int| (dumped[power_of_two((i + 1) as nat) - 1], power_of_two((i + 1) as nat) as u64),
    )
}

/// Whether a table read after `n` paths ends with a row for the current
/// estimate: unless `n` is the last power of two reached (`n == 1`
/// included, where no row is recorded yet).
pub open spec fn needs_current_row(n: nat) -> bool {
    n != power_of_two(log2_floor(n))
}

/// The bounds that make `log2_floor(n)` the exponent of the largest power
/// of two not above `n`.
pub proof fn lemma_log2_bounds(n: nat)
    requires
        n >= 1,
    ensures
        power_of_two(log2_floor(n)) <= n < power_of_two(log2_floor(n) + 1),
    decreases n,
{
    if n >= 2 {
        lemma_log2_bounds(n / 2);
    }
}

/// The exponent `m` with `2^m <= n < 2^(m+1)` is `log2_floor(n)`.
pub proof fn lemma_log2_unique(n: nat, m: nat)
    requires
        power_of_two(m) <= n < power_of_two(m + 1),
    ensures
        log2_floor(n) == m,
    decreases m,
{
    if m > 0 {
        lemma_log2_unique(n / 2, (m - 1) as nat);
    }
}

/// Powers of two grow strictly.
pub proof fn lemma_power_of_two_increases(a: nat, b: nat)
    requires
        a < b,
    ensures
        power_of_two(a) < power_of_two(b),
    decreases b,
{
    if a < b - 1 {
        lemma_power_of_two_increases(a, (b - 1) as nat);
    }
    lemma_power_of_two_positive((b - 1) as nat);
}

/// Powers of two are positive.
pub proof fn lemma_power_of_two_positive(n: nat)
    ensures
        power_of_two(n) >= 1,
    decreases n,
{
    if n > 0 {
        lemma_power_of_two_positive((n - 1) as nat);
    }
}

/// Every recorded path count is at most the number of paths done.
proof fn lemma_row_count_bound(n: nat, i: int)
    requires
        0 <= i < log2_floor(n),
    ensures
        power_of_two((i + 1) as nat) <= n,
{
    let m = log2_floor(n);
    if n >= 1 {
        lemma_log2_bounds(n);
    }
    if i + 1 < m {
        lemma_power_of_two_increases((i + 1) as nat, m);
    }
}

/// After `n` paths the recorded path counts are exactly the powers of two
/// `2, 4, 8, ...` up to `n`, strictly increasing, each with the estimate
/// reached at that count.
pub proof fn lemma_recorded_marks<R>(dumped: Seq<R>)
    requires
        dumped.len() <= u64::MAX,
    ensures
        forall|i: int|
            0 <= i < recorded_rows(dumped).len() ==> #[trigger] recorded_rows(dumped)[i].1
                == power_of_two((i + 1) as nat) && power_of_two((i + 1) as nat) <= dumped.len()
                && recorded_rows(dumped)[i].0 == dumped[power_of_two((i + 1) as nat) - 1],
        forall|i: int, j: int|
            0 <= i < j < recorded_rows(dumped).len() ==> #[trigger] recorded_rows(dumped)[i].1
                < #[trigger] recorded_rows(dumped)[j].1,
        forall|e: nat|
            1 <= e && #[trigger] power_of_two(e) <= dumped.len() ==> e <= recorded_rows(
                dumped,
            ).len(),
{
    let n = dumped.len();
    let m = log2_floor(n);
    if n >= 1 {
        lemma_log2_bounds(n);
    }
    assert forall|i: int| 0 <= i < m implies #[trigger] power_of_two((i + 1) as nat) <= n by {
        if i + 1 < m {
            lemma_power_of_two_increases((i + 1) as nat, m);
        }
    }
    assert forall|i: int, j: int|
        0 <= i < j < recorded_rows(dumped).len() implies #[trigger] recorded_rows(dumped)[i].1
        < #[trigger] recorded_rows(dumped)[j].1 by {
        lemma_power_of_two_increases((i + 1) as nat, (j + 1) as nat);
        if j + 1 < m {
            lemma_power_of_two_increases((j + 1) as nat, m);
        }
    }
    assert forall|e: nat| 1 <= e && #[trigger] power_of_two(e) <= n implies e <= m by {
        lemma_power_of_two_positive(e);
        if e > m + 1 {
            lemma_power_of_two_increases(m + 1, e);
        }
    }
}

/// The bookkeeping of a convergence table over estimates of type `R`.
pub struct ConvergenceTable<R: Copy> {
    results_so_far: Vec<(R, u64)>,
    stopping_point: u64,
    paths_done: u64,
    dumped: Ghost<Seq<R>>,
}

impl<R: Copy> View for ConvergenceTable<R> {
    type V = Seq<R>;

    /// The estimates fed so far, one per path.
    closed spec fn view(&self) -> Seq<R> {
        self.dumped@
    }
}

impl<R: Copy> ConvergenceTable<R> {
    /// The fields agree with the estimates fed so far.
    pub closed spec fn wf(&self) -> bool {
        let n = self.dumped@.len();
        let m = self.results_so_far@.len();
        &&& self.paths_done == n
        &&& m == log2_floor(n)
        &&& self.stopping_point == power_of_two(m + 1)
        &&& self.results_so_far@ == recorded_rows(self.dumped@)
    }

    /// An empty table.
    pub fn new() -> (r: ConvergenceTable<R>)
        ensures
            r.wf(),
            r@ == Seq::<R>::empty(),
    {
        assert(recorded_rows(Seq::<R>::empty()) =~= Seq::<(R, u64)>::empty());
        assert(power_of_two(1) == 2) by {
            assert(power_of_two(0) == 1);
        }
        ConvergenceTable {
            results_so_far: Vec::new(),
            stopping_point: 2,
            paths_done: 0,
            dumped: Ghost(Seq::empty()),
        }
    }

    /// The number of paths done.
    pub fn paths_done(&self) -> (r: u64)
        requires
            self.wf(),
        ensures
            r == self@.len(),
    {
        self.paths_done
    }

    /// Feeds the estimate after one more path; when the path count reaches
    /// the next power of two, a row with that estimate is recorded.
    pub fn dump_one_result(&mut self, estimate: R)
        requires
            old(self).wf(),
            old(self)@.len() < 0x7fff_ffff_ffff_ffff,
        ensures
            final(self).wf(),
            final(self)@ == old(self)@.push(estimate),
    {
        let ghost old_dumped = self.dumped@;
        let ghost m = self.results_so_far@.len();
        let ghost n = old_dumped.len();
        self.paths_done = self.paths_done + 1;
        self.dumped = Ghost(self.dumped@.push(estimate));
        let ghost new_dumped = self.dumped@;
        proof {
            if n >= 1 {
                lemma_log2_bounds(n);
            }
        }
        if self.paths_done == self.stopping_point {
            let p = self.paths_done;
            self.results_so_far.push((estimate, p));
            self.stopping_point = self.stopping_point * 2;
            proof {
                lemma_power_of_two_positive(m + 1);
                lemma_log2_unique((n + 1) as nat, m + 1);
                assert forall|i: int| 0 <= i < m implies #[trigger] recorded_rows(new_dumped)[i]
                    == recorded_rows(old_dumped)[i] by {
                    lemma_row_count_bound(n, i);
                    lemma_power_of_two_positive((i + 1) as nat);
                }
                assert(recorded_rows(new_dumped).len() == m + 1);
                assert(recorded_rows(new_dumped)[m as int] == (estimate, p));
                assert(self.results_so_far@ =~= recorded_rows(new_dumped));
            }
        } else {
            proof {
                lemma_power_of_two_positive(m);
                lemma_log2_unique((n + 1) as nat, m);
                assert forall|i: int| 0 <= i < m implies #[trigger] recorded_rows(new_dumped)[i]
                    == recorded_rows(old_dumped)[i] by {
                    lemma_row_count_bound(n, i);
                    lemma_power_of_two_positive((i + 1) as nat);
                }
                assert(recorded_rows(new_dumped).len() == m);
                assert(self.results_so_far@ =~= recorded_rows(new_dumped));
            }
        }
    }

    /// The recorded rows, followed by a row for `current` (the estimate now)
    /// with the current path count unless that count was just recorded.
    pub fn get_results_so_far(&self, current: R) -> (r: Vec<(R, u64)>)
        requires
            self.wf(),
        ensures
            r@ == recorded_rows(self@) + if needs_current_row(self@.len()) {
                seq![(current, self@.len() as u64)]
            } else {
                Seq::<(R, u64)>::empty()
            },
    {
        let mut tmp: Vec<(R, u64)> = Vec::new();
        let n = self.results_so_far.len();
        let mut i: usize = 0;
        while i < n
            invariant
                i <= n,
                n == self.results_so_far@.len(),
                tmp@ == self.results_so_far@.subrange(0, i as int),
            decreases n - i,
        {
            tmp.push(self.results_so_far[i]);
            i = i + 1;
            assert(tmp@ =~= self.results_so_far@.subrange(0, i as int));
        }
        assert(tmp@ =~= self.results_so_far@);
        proof {
            let len = self@.len();
            assert(self.stopping_point == 2 * power_of_two(log2_floor(len)));
        }
        if self.paths_done != self.stopping_point / 2 {
            tmp.push((current, self.paths_done));
        }
        tmp
    }
}

} // verus!
