use vstd::prelude::*;

use crate::aggregate::{expect_proof, Aggregate, ProveError};

verus! {

/// Decides on what the remote runtime handed back for the fold stage of a
/// batch of `batch_len` inputs: its failure is passed on; the identity
/// holds nothing to finalize after an empty batch and is a malformed result
/// after a non-empty one; only a proof goes on to finalization.
pub fn accept_fold_result<P, E>(batch_len: usize, res: Result<Aggregate<P>, String>) -> (r: Result<
    P,
    ProveError<E>,
>)
    ensures
        res matches Err(m) ==> (r matches Err(ProveError::Runtime(m2)) && m2@ == m@),
        res is Ok && res->Ok_0 is Identity && batch_len == 0 ==> r matches Err(
            ProveError::EmptyAggregate,
        ),
        res is Ok && res->Ok_0 is Identity && batch_len > 0 ==> r matches Err(
            ProveError::ShapeMismatch,
        ),
        res matches Ok(Aggregate::Proof(p)) ==> r == Ok::<P, ProveError<E>>(p),
{
    match res {
        Err(m) => Err(ProveError::Runtime(m)),
        Ok(Aggregate::Identity) => {
            if batch_len == 0 {
                Err(ProveError::EmptyAggregate)
            } else {
                Err(ProveError::ShapeMismatch)
            }
        },
        Ok(agg) => expect_proof(agg),
    }
}

/// Decides on what the remote runtime handed back for the block stage:
/// its failure is passed on as a runtime failure.
pub fn accept_block_result<B, E>(res: Result<B, String>) -> (r: Result<B, ProveError<E>>)
    ensures
        res matches Err(m) ==> (r matches Err(ProveError::Runtime(m2)) && m2@ == m@),
        res matches Ok(b) ==> r == Ok::<B, ProveError<E>>(b),
{
    match res {
        Err(m) => Err(ProveError::Runtime(m)),
        Ok(b) => Ok(b),
    }
}

} // verus!
