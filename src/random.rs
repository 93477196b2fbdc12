use rand::Rng;
use vstd::prelude::*;

verus! {

/// Relies on `rand::Rng::gen_range` over `rand::thread_rng()`: for `low < high`
/// it returns a value in `[low, high)`, and it panics only when `low >= high`.
#[verifier::external_body]
pub(crate) fn random_below(bound: u64) -> (r: u64)
    requires
        bound > 0,
    ensures
        r < bound,
{
    rand::thread_rng().gen_range(0, bound)
}

} // verus!
