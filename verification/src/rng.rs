use vstd::prelude::*;

verus! {

/// Relies on rand::Rng::gen_range over the range `0..n`, with rand's
/// thread-local generator: it returns a uniformly drawn value of that
/// range, so some value strictly below `n`. It panics only on an empty
/// range, which `n > 0` rules out. Nothing more is assumed of the draw:
/// callers must hold for every value below `n`.
#[verifier::external_body]
pub(crate) fn random_below(n: usize) -> (r: usize)
    requires
        n > 0,
    ensures
        r < n,
{
    rand::Rng::gen_range(&mut rand::thread_rng(), 0..n)
}

} // verus!
