use vstd::prelude::*;

verus! {

/// Whether iteration `iter` of a run ends with a snapshot: every `n_out`-th
/// iteration from the first, and never when `n_out` is zero.
pub fn snapshot_due(iter: usize, n_out: usize) -> (r: bool)
    ensures
        r == (n_out > 0 && iter % n_out == 0),
{
    n_out > 0 && iter % n_out == 0
}

} // verus!
