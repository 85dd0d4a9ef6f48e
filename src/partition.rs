//! The split of a simulation's paths among workers. Worker `i` simulates a
//! contiguous block of paths; it clones the random stream and skips it to
//! the block's first path, so that every path uses the same vector of
//! variates whatever the number of workers and the order they finish in.
use vstd::prelude::*;
use crate::random::{Random, is_draw_run, lemma_run_shift};

verus! {

/// A contiguous block of paths: `first_path .. first_path + number_of_paths`.
#[derive(Clone, Copy, Debug, PartialEq, Eq, Structural)]
pub struct PathBlock {
    pub first_path: usize,
    pub number_of_paths: usize,
}

/// The size of block `i` when `n` paths are split among `w` workers: the
/// first `n % w` blocks take one path more than the others.
pub open spec fn block_size(n: nat, w: nat, i: nat) -> nat
    recommends
        w > 0,
{
    if i < n % w {
        n / w + 1
    } else {
        n / w
    }
}

/// The first path of block `i`.
pub open spec fn block_start(n: nat, w: nat, i: nat) -> nat
    recommends
        w > 0,
{
    i * (n / w) + if i < n % w {
        i
    } else {
        n % w
    }
}

/// Each block starts where the previous one ends, the first at path 0, and
/// the last ends at path `n`: every path belongs to exactly one block.
pub proof fn lemma_blocks_cover(n: nat, w: nat, i: nat)
    requires
        w > 0,
        i < w,
    ensures
        block_start(n, w, 0) == 0,
        block_start(n, w, i) + block_size(n, w, i) == block_start(n, w, i + 1),
        block_start(n, w, w) == n,
        block_start(n, w, i) + block_size(n, w, i) <= n,
{
    let q = n / w;
    let r = n % w;
    vstd::arithmetic::div_mod::lemma_fundamental_div_mod(n as int, w as int);
    vstd::arithmetic::div_mod::lemma_mod_bound(n as int, w as int);
    assert((i + 1) * q == i * q + q) by (nonlinear_arith);
    assert(w * q == q * w) by (nonlinear_arith);
    assert(0 * q == 0);
    assert((i + 1) * q <= w * q) by (nonlinear_arith)
        requires
            i + 1 <= w,
    ;
}

/// A worker whose copy of the stream was skipped to the first path of its
/// block draws, for its `j`-th path, the vector the undivided stream draws
/// for path `first + j`: `states` are the worker's stream before each of
/// its calls of `get_uniforms`, and `states[0]` is `master` after
/// `skip(block_start(n, w, i))`.
pub proof fn lemma_worker_draws<T: Random>(master: T, states: Seq<T>, n: nat, w: nat, i: nat)
    requires
        w > 0,
        i < w,
        is_draw_run(states),
        forall|k: nat| #[trigger]
            states[0].upcoming(k) == master.upcoming(k + block_start(n, w, i)),
    ensures
        forall|j: int|
            0 <= j < states.len() ==> #[trigger] states[j].upcoming(0) == master.upcoming(
                (block_start(n, w, i) + j) as nat,
            ),
{
    assert forall|j: int| 0 <= j < states.len() implies #[trigger] states[j].upcoming(0)
        == master.upcoming((block_start(n, w, i) + j) as nat) by {
        lemma_run_shift(states, j, 0);
        assert(states[0].upcoming(j as nat) == master.upcoming(j as nat + block_start(n, w, i)));
    }
}

/// Splits `number_of_paths` paths among `number_of_workers` workers.
pub fn partition_paths(number_of_paths: usize, number_of_workers: usize) -> (r: Vec<PathBlock>)
    requires
        number_of_workers > 0,
    ensures
        r@.len() == number_of_workers,
        forall|i: int|
            0 <= i < number_of_workers ==> (#[trigger] r@[i]).first_path == block_start(
                number_of_paths as nat,
                number_of_workers as nat,
                i as nat,
            ) && r@[i].number_of_paths == block_size(
                number_of_paths as nat,
                number_of_workers as nat,
                i as nat,
            ),
{
    let n = number_of_paths;
    let w = number_of_workers;
    let base = n / w;
    let extra = n % w;
    let mut blocks: Vec<PathBlock> = Vec::new();
    let mut start: usize = 0;
    let mut i: usize = 0;
    while i < w
        invariant
            i <= w,
            base == n as nat / w as nat,
            extra == n as nat % w as nat,
            start == block_start(n as nat, w as nat, i as nat),
            blocks@.len() == i,
            forall|j: int|
                0 <= j < i ==> (#[trigger] blocks@[j]).first_path == block_start(
                    n as nat,
                    w as nat,
                    j as nat,
                ) && blocks@[j].number_of_paths == block_size(n as nat, w as nat, j as nat),
        decreases w - i,
    {
        proof {
            lemma_blocks_cover(n as nat, w as nat, i as nat);
        }
        let size = if i < extra {
            base + 1
        } else {
            base
        };
        blocks.push(PathBlock { first_path: start, number_of_paths: size });
        start = start + size;
        i = i + 1;
    }
    blocks
}

} // verus!
