//! The arguments of the `search_notes` tool.
use vstd::prelude::*;

verus! {

/// How many hits `search_notes` returns when the caller does not say.
pub fn default_top_k() -> (k: usize)
    ensures
        k == 5,
{
    5
}

/// The number of hits `search_notes` asks for: the requested number,
/// clamped to `1..=20`.
pub fn clamp_top_k(requested: usize) -> (k: usize)
    ensures
        k == if requested < 1 {
            1
        } else if requested > 20 {
            20
        } else {
            requested
        },
{
    if requested < 1 {
        1
    } else if requested > 20 {
        20
    } else {
        requested
    }
}

} // verus!
