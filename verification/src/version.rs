use vstd::prelude::*;

verus! {

/// The engine version string.
pub fn engine_version() -> (r: &'static str)
    ensures
        r@ == "0.1.0"@,
        r@.len() > 0,
{
    proof {
        reveal_strlit("0.1.0");
    }
    "0.1.0"
}

} // verus!
