//! Random input: integers drawn uniformly from `[0, 10 * n)`.
use vstd::prelude::*;
use rand::Rng;

verus! {

/// Relies on rand's `rng()` and `Rng::random_range`: a value drawn from the
/// half-open range `0..bound`, which is not empty.
#[verifier::external_body]
fn random_below(bound: i32) -> (r: i32)
    requires
        bound > 0,
    ensures
        0 <= r < bound,
{
    rand::rng().random_range(0..bound)
}

/// `n` integers, each drawn from `[0, 10 * n)`.
pub fn random_input(n: usize) -> (r: Vec<i32>)
    requires
        10 * n <= i32::MAX,
    ensures
        r@.len() == n,
        forall|i: int| 0 <= i < n ==> 0 <= #[trigger] r@[i] < 10 * n,
{
    let bound = (10 * n) as i32;
    let mut r: Vec<i32> = Vec::new();
    while r.len() < n
        invariant
            r@.len() <= n,
            bound == 10 * n,
            forall|i: int| 0 <= i < r@.len() ==> 0 <= #[trigger] r@[i] < bound,
        decreases n - r@.len(),
    {
        let x = random_below(bound);
        r.push(x);
    }
    r
}

} // verus!
