//! Fork-join parallelism and parallel sorting, from rayon.
use rayon::slice::ParallelSliceMut;
use vstd::prelude::*;

verus! {

/// Relies on `rayon::join`: both closures run, possibly in parallel, and both
/// results are returned.
#[verifier::external_body]
pub(crate) fn join<A, B, RA, RB>(oper_a: A, oper_b: B) -> (r: (RA, RB)) where
    A: FnOnce() -> RA + Send,
    B: FnOnce() -> RB + Send,
    RA: Send,
    RB: Send,

    requires
        oper_a.requires(()),
        oper_b.requires(()),
    ensures
        oper_a.ensures((), r.0),
        oper_b.ensures((), r.1),
{
    rayon::join(oper_a, oper_b)
}

/// Relies on rayon's `par_sort_unstable_by_key`: the slice ends up holding the
/// same elements, in ascending order of the key, here the first field.
#[verifier::external_body]
pub(crate) fn sort_by_first(v: &mut Vec<(u64, usize)>)
    ensures
        final(v).len() == old(v).len(),
        final(v)@.to_multiset() == old(v)@.to_multiset(),
        forall|s: int, t: int| 0 <= s < t < final(v).len() ==> final(v)@[s].0 <= final(v)@[t].0,
{
    v.par_sort_unstable_by_key(|e| e.0);
}

} // verus!
