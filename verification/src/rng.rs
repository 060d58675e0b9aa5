use vstd::prelude::*;
use rand::Rng;
use rand::rngs::StdRng;

verus! {

/// Declares rand's seedable standard generator so that verified signatures
/// can carry a `&mut StdRng`; its value stays opaque to the verifier.
#[verifier::external_type_specification]
#[verifier::external_body]
pub struct ExStdRng(StdRng);

/// Relies on rand's `Rng::gen_range` on an inclusive `i64` range: it returns
/// a value inside the range and panics only when the range is empty, which
/// the precondition rules out.
#[verifier::external_body]
pub(crate) fn rand_range(rng: &mut StdRng, lo: i64, hi: i64) -> (r: i64)
    requires
        lo <= hi,
    ensures
        lo <= r <= hi,
{
    rng.gen_range(lo..=hi)
}

} // verus!
