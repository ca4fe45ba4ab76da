use vstd::prelude::*;
use crate::phases::is_sample;

verus! {

/// Calls `rand::seq::index::sample` with the thread's generator; the crate
/// documents it as returning exactly `amount` distinct indices from
/// `0..length` in random order, and it panics when `amount > length`, which
/// `requires` rules out. Which indices, and in which order, is left to
/// chance and not stated.
#[verifier::external_body]
pub(crate) fn rand_perm(length: usize, amount: usize) -> (r: Vec<usize>)
    requires
        amount <= length,
    ensures
        is_sample(r@, length as nat, amount as nat),
{
    rand::seq::index::sample(&mut rand::rng(), length, amount).into_vec()
}

/// Calls `rand::Rng::random_range` over `0..n` with the thread's generator;
/// the crate documents the result as lying in the range and panics on an
/// empty range, which `requires` rules out. Which value comes back is left
/// to chance and not stated.
#[verifier::external_body]
pub(crate) fn random_below(n: usize) -> (r: usize)
    requires
        n > 0,
    ensures
        r < n,
{
    rand::Rng::random_range(&mut rand::rng(), 0..n)
}

} // verus!
