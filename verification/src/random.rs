use rand::Rng;
use vstd::prelude::*;

verus! {

/// A number below `n`, drawn by `rand::Rng::gen_range` from the generator that
/// `rand::thread_rng` hands out. Nothing but the bound is known of it.
#[verifier::external_body]
pub(crate) fn random_below(n: u64) -> (x: u64)
    requires
        n > 0,
    ensures
        x < n,
{
    rand::thread_rng().gen_range(0..n)
}

/// A number drawn by `rand::random`. Nothing is known of it.
#[verifier::external_body]
pub(crate) fn random_number() -> (x: u16) {
    rand::random::<u16>()
}

} // verus!
