//! The engine's one randomness source.

use vstd::prelude::*;

verus! {

/// Relies on `rand::Rng::gen_range` over `0..n`, with the process-wide
/// thread-local generator of `rand::thread_rng`, which is safe to use from
/// many threads at once. `gen_range` returns a value of the given range and
/// panics only when the range is empty; nothing more is promised of a
/// random draw than its bound.
#[verifier::external_body]
pub(crate) fn random_below(n: usize) -> (r: usize)
    requires
        n >= 1,
    ensures
        r < n,
{
    rand::Rng::gen_range(&mut rand::thread_rng(), 0..n)
}

} // verus!
