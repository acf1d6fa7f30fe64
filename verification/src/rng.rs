//! The one place the library draws randomness from the outside.

use rand::Rng;
use vstd::prelude::*;

verus! {

/// Relies on `rand::thread_rng` and `rand::Rng::gen_range` over an
/// inclusive integer range: the draw lies within the bounds. The range is
/// nonempty, so the call cannot panic. Nothing more is assumed of the
/// result: callers hold for every value in the range.
#[verifier::external_body]
pub(crate) fn rand_i64(lo: i64, hi: i64) -> (r: i64)
    requires
        lo <= hi,
    ensures
        lo <= r <= hi,
{
    rand::thread_rng().gen_range(lo..=hi)
}

} // verus!
