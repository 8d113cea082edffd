use crate::fill::{all_valid, is_valid_outcome};
use crate::run::{lemma_outcome_bounds, lemma_run_terminates, run_outcome, run_ring, RunResult};
use crate::steps::{
    is_prime_prefix, lemma_prime_prefix_unique, prime_prefix, prime_steps, MAX_PRIME_COUNT,
};
use rayon::iter::{IntoParallelRefIterator, ParallelIterator};
use vstd::prelude::*;

verus! {

/// The outcome of a run that is known to complete.
pub open spec fn completed_outcome(capacity: u64, steps: Seq<u64>) -> RunResult {
    run_outcome(capacity, steps)->Some_0
}

/// The sweep over the capacities `lo .. hi`: each capacity in ascending order,
/// paired with the outcome of a fresh ring of that capacity fed `steps` from
/// their start.
pub open spec fn sweep_model(lo: u64, hi: u64, steps: Seq<u64>) -> Seq<(u64, RunResult)> {
    Seq::new(
        (hi - lo) as nat,
        |i: int| ((lo + i) as u64, completed_outcome((lo + i) as u64, steps)),
    )
}

/// Relies on rayon's `par_iter().map(..).collect()` into a `Vec`: an indexed
/// parallel iterator collects in the order of `sizes`. Each item is one call
/// of `run_ring` on that size.
#[verifier::external_body]
fn run_rings_in_parallel(sizes: &Vec<u64>, steps: &Vec<u64>) -> (r: Vec<Option<RunResult>>)
    requires
        forall|i: int| 0 <= i < sizes@.len() ==> sizes@[i] >= 1,
    ensures
        r@.len() == sizes@.len(),
        forall|i: int| 0 <= i < sizes@.len() ==> r@[i] == run_outcome(sizes@[i], steps@),
{
    sizes.par_iter().map(|size| run_ring(*size, steps)).collect()
}

/// Runs one fresh ring for each capacity in `lo .. hi`, each fed `steps` from
/// their start, and pairs each capacity with its outcome, in ascending order.
/// With at least `hi` steps every run meets its repeat within them.
pub fn sweep_with(lo: u64, hi: u64, steps: &Vec<u64>) -> (r: Vec<(u64, RunResult)>)
    requires
        1 <= lo <= hi,
        steps@.len() >= hi,
    ensures
        r@ == sweep_model(lo, hi, steps@),
        forall|i: int|
            0 <= i < r@.len() ==> #[trigger] r@[i].1.seen + r@[i].1.unseen == r@[i].0 && 1
                <= r@[i].1.seen,
        all_valid(r@),
{
    let mut sizes: Vec<u64> = Vec::new();
    let mut c: u64 = lo;
    while c < hi
        invariant
            lo <= c <= hi,
            sizes@.len() == c - lo,
            forall|i: int| 0 <= i < sizes@.len() ==> sizes@[i] == lo + i,
        decreases hi - c,
    {
        sizes.push(c);
        c = c + 1;
    }
    let outcomes = run_rings_in_parallel(&sizes, steps);
    let mut r: Vec<(u64, RunResult)> = Vec::new();
    let mut k: usize = 0;
    while k < outcomes.len()
        invariant
            1 <= lo,
            outcomes@.len() == sizes@.len(),
            sizes@.len() == hi - lo,
            forall|i: int| 0 <= i < sizes@.len() ==> sizes@[i] == lo + i,
            forall|i: int|
                0 <= i < sizes@.len() ==> outcomes@[i] == run_outcome(sizes@[i], steps@),
            steps@.len() >= hi,
            k <= outcomes@.len(),
            r@ =~= sweep_model(lo, hi, steps@).take(k as int),
        decreases outcomes@.len() - k,
    {
        proof {
            lemma_run_terminates(sizes@[k as int], steps@);
        }
        let o = outcomes[k].unwrap();
        r.push((sizes[k], o));
        k = k + 1;
    }
    assert(sweep_model(lo, hi, steps@).take(k as int) =~= sweep_model(lo, hi, steps@));
    assert forall|i: int| 0 <= i < r@.len() implies #[trigger] r@[i].1.seen + r@[i].1.unseen
        == r@[i].0 && 1 <= r@[i].1.seen && is_valid_outcome(r@[i].1) by {
        let c = (lo + i) as u64;
        lemma_run_terminates(c, steps@);
        lemma_outcome_bounds(c, steps@);
    }
    r
}

/// The sweep over the capacities `lo .. hi` driven by the primes 2, 3, 5, 7, ...
pub fn sweep(lo: u64, hi: u64) -> (r: Vec<(u64, RunResult)>)
    requires
        1 <= lo <= hi,
        hi <= MAX_PRIME_COUNT,
    ensures
        r@ == sweep_model(lo, hi, prime_prefix(hi as nat)),
        all_valid(r@),
{
    let steps = prime_steps(hi as usize);
    sweep_with(lo, hi, &steps)
}

/// Sweeping the same capacities twice over the same step source gives the
/// same result: any two equally long starts of the primes drive identical
/// sweeps.
pub proof fn lemma_sweep_deterministic(lo: u64, hi: u64, a: Seq<u64>, b: Seq<u64>)
    requires
        is_prime_prefix(a),
        is_prime_prefix(b),
        a.len() == b.len(),
    ensures
        sweep_model(lo, hi, a) == sweep_model(lo, hi, b),
{
    lemma_prime_prefix_unique(a, b);
}

} // verus!
