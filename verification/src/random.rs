//! Random choices.
use vstd::prelude::*;

verus! {

/// Calls `rand::Rng::gen_range` on the thread's generator: some number below `n`, which
/// must not be zero.
#[verifier::external_body]
pub(crate) fn random_below(n: usize) -> (r: usize)
    requires
        n > 0,
    ensures
        r < n,
{
    rand::Rng::gen_range(&mut rand::thread_rng(), 0..n)
}

/// Calls `rand::seq::SliceRandom::shuffle` with the thread's generator: the same items
/// in some order.
#[verifier::external_body]
pub(crate) fn shuffle(items: &mut Vec<usize>)
    ensures
        final(items)@.to_multiset() == old(items)@.to_multiset(),
{
    rand::seq::SliceRandom::shuffle(items.as_mut_slice(), &mut rand::thread_rng())
}

/// Calls `rand::seq::SliceRandom::choose_multiple` with the thread's generator: `amount`
/// items at different places, or all of them when there are fewer, in some order.
#[verifier::external_body]
pub(crate) fn choose_some(items: &Vec<usize>, amount: usize) -> (r: Vec<usize>)
    ensures
        r@.len() == if amount <= items@.len() {
            amount as nat
        } else {
            items@.len()
        },
        forall|i: int| 0 <= i < r@.len() ==> items@.contains(#[trigger] r@[i]),
        items@.no_duplicates() ==> r@.no_duplicates(),
{
    rand::seq::SliceRandom::choose_multiple(
        items.as_slice(),
        &mut rand::thread_rng(),
        amount,
    ).copied().collect()
}

/// The coin flips that `rand::rngs::StdRng` gives from a seed.
pub uninterp spec fn coin_flips(seed: u64, n: nat) -> Seq<bool>;

/// Calls `rand::SeedableRng::seed_from_u64` for `rand::rngs::StdRng` and draws `n` values
/// of the standard distribution of `bool` from it: a fixed sequence for each seed, as
/// the generator's algorithm does not depend on the machine.
#[verifier::external_body]
pub(crate) fn flip_coins(seed: u64, n: usize) -> (r: Vec<bool>)
    ensures
        r@ == coin_flips(seed, n as nat),
        r@.len() == n,
{
    let rng = <rand::rngs::StdRng as rand::SeedableRng>::seed_from_u64(seed);
    rand::Rng::sample_iter(rng, rand::distributions::Standard).take(n).collect()
}

} // verus!
