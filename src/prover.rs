use vstd::prelude::*;

use crate::aggregate::{combine, combines, Aggregate, ProveError};
use crate::gate::Gate;
use crate::aggregate::respects;
use crate::reduce::{
    built, failed_join, join_never_fails, lemma_built_content, lemma_content_pointwise, reduce_leaves,
};

verus! {

/// `ps` holds, position for position, a leaf proof that `leaf` returned
/// for each of `inputs`.
pub open spec fn leaves_of<I, P, E, G: Fn(I) -> Result<P, E>>(leaf: G, inputs: Seq<I>, ps: Seq<P>) -> bool {
    &&& ps.len() == inputs.len()
    &&& forall|j: int| 0 <= j < ps.len() ==> #[trigger] leaf.ensures((inputs[j],), Ok::<P, E>(ps[j]))
}

/// Every call of `leaf` on `i` succeeds.
pub open spec fn leaf_succeeds_on<I, P, E, G: Fn(I) -> Result<P, E>>(leaf: G, i: I) -> bool {
    forall|o: Result<P, E>| #[trigger] leaf.ensures((i,), o) ==> o is Ok
}

/// Every call of `leaf` on each of `inputs` succeeds.
pub open spec fn leaves_succeed<I, P, E, G: Fn(I) -> Result<P, E>>(leaf: G, inputs: Seq<I>) -> bool {
    forall|j: int| 0 <= j < inputs.len() ==> leaf_succeeds_on(leaf, #[trigger] inputs[j])
}

/// Every call of `wrap` succeeds.
pub open spec fn wrap_never_fails<P, Q, B, E, W: Fn(P, Option<Q>) -> Result<B, E>>(wrap: W) -> bool {
    forall|p: P, q: Option<Q>, o: Result<B, E>| #[trigger] wrap.ensures((p, q), o) ==> o is Ok
}

/// `b` is a block proof that `wrap` made, with `previous`, of an aggregate
/// that some tree of `join` calls built from the leaf proofs of `inputs`.
pub open spec fn block_of<I, P, Q, B, E, G, F, W>(
    leaf: G,
    join: F,
    wrap: W,
    inputs: Seq<I>,
    previous: Option<Q>,
    b: B,
) -> bool where
    G: Fn(I) -> Result<P, E>,
    F: Fn(P, P) -> Result<P, E>,
    W: Fn(P, Option<Q>) -> Result<B, E>,
 {
    exists|ps: Seq<P>, p: P|
        #![trigger leaves_of(leaf, inputs, ps), wrap.ensures((p, previous), Ok::<B, E>(b))]
        leaves_of(leaf, inputs, ps) && built(join, ps, 0, inputs.len() as int, p) && wrap.ensures(
            (p, previous),
            Ok::<B, E>(b),
        )
}

/// `e` is an error that `wrap` returned, with `previous`, on an aggregate
/// that some tree of `join` calls built from the leaf proofs of `inputs`.
pub open spec fn wrap_failed_on<I, P, Q, B, E, G, F, W>(
    leaf: G,
    join: F,
    wrap: W,
    inputs: Seq<I>,
    previous: Option<Q>,
    e: E,
) -> bool where
    G: Fn(I) -> Result<P, E>,
    F: Fn(P, P) -> Result<P, E>,
    W: Fn(P, Option<Q>) -> Result<B, E>,
 {
    exists|ps: Seq<P>, p: P|
        #![trigger leaves_of(leaf, inputs, ps), wrap.ensures((p, previous), Err::<B, E>(e))]
        leaves_of(leaf, inputs, ps) && built(join, ps, 0, inputs.len() as int, p) && wrap.ensures(
            (p, previous),
            Err::<B, E>(e),
        )
}

/// The admission gate of one run; a limit of zero could admit no work.
pub fn open_gate<E>(limit: usize) -> (r: Result<Gate, ProveError<E>>)
    ensures
        r is Err <==> limit == 0,
        r matches Err(e) ==> e is InvalidLimit,
        r matches Ok(g) ==> g.wf() && g.spec_limit() == limit && g.spec_in_flight() == 0,
{
    match Gate::new(limit) {
        Some(g) => Ok(g),
        None => Err(ProveError::InvalidLimit),
    }
}

/// The outcome of the leaf computation of the input at `index`, as an
/// aggregate to reduce or as the failure that ends the run.
pub fn leaf_aggregate<P, E>(index: usize, res: Result<P, E>) -> (r: Result<Aggregate<P>, ProveError<E>>)
    ensures
        res matches Ok(p) ==> r matches Ok(Aggregate::Proof(q)) && q == p,
        res matches Err(e) ==> (r matches Err(ProveError::LeafComputation { index: i, error }) && i
            == index && error == e),
{
    match res {
        Ok(p) => Ok(Aggregate::Proof(p)),
        Err(error) => Err(ProveError::LeafComputation { index, error }),
    }
}

/// One step of a reduction: `combine`, with a failure of `join` reported
/// as a failed combination.
pub fn combine_step<P, E, F: Fn(P, P) -> Result<P, E>>(
    a: Aggregate<P>,
    b: Aggregate<P>,
    join: &F,
) -> (r: Result<Aggregate<P>, ProveError<E>>)
    requires
        forall|x: P, y: P| join.requires((x, y)),
    ensures
        a is Identity ==> r == Ok::<Aggregate<P>, ProveError<E>>(b),
        b is Identity ==> r == Ok::<Aggregate<P>, ProveError<E>>(a),
        r matches Ok(v) ==> combines(*join, a, b, v),
        r is Err ==> (r matches Err(ProveError::Combine(e)) && (a, b) matches (
            Aggregate::Proof(x),
            Aggregate::Proof(y),
        ) && join.ensures((x, y), Err::<P, E>(e))),
{
    match combine(a, b, join) {
        Ok(v) => Ok(v),
        Err(e) => Err(ProveError::Combine(e)),
    }
}

fn reversed<T>(v: Vec<T>) -> (r: Vec<T>)
    ensures
        r@.len() == v@.len(),
        forall|j: int| 0 <= j < r@.len() ==> #[trigger] r@[j] == v@[v@.len() - 1 - j],
{
    let ghost orig = v@;
    let mut rest = v;
    let mut out: Vec<T> = Vec::new();
    while rest.len() > 0
        invariant
            rest@ == orig.subrange(0, rest@.len() as int),
            out@.len() + rest@.len() == orig.len(),
            forall|j: int| 0 <= j < out@.len() ==> #[trigger] out@[j] == orig[orig.len() - 1 - j],
        decreases rest@.len(),
    {
        let x = rest.pop().unwrap();
        out.push(x);
        assert(rest@ =~= orig.subrange(0, rest@.len() as int));
    }
    out
}

/// Map stage: the leaf proof of each input, in order, each computed inside
/// a slot of `gate` that is given back on every path, failure included.
/// The first input whose leaf proof fails ends the stage.
pub fn map_leaves<I, P, E, G: Fn(I) -> Result<P, E>>(inputs: Vec<I>, gate: &mut Gate, leaf: &G) -> (r:
    Result<Vec<P>, ProveError<E>>)
    requires
        old(gate).wf(),
        old(gate).spec_in_flight() < old(gate).spec_limit(),
        forall|i: I| leaf.requires((i,)),
    ensures
        final(gate).wf(),
        final(gate).spec_limit() == old(gate).spec_limit(),
        final(gate).spec_in_flight() == old(gate).spec_in_flight(),
        r matches Ok(ps) ==> leaves_of(*leaf, inputs@, ps@),
        r is Err ==> (r matches Err(ProveError::LeafComputation { index, error }) && index
            < inputs@.len() && leaf.ensures((inputs@[index as int],), Err::<P, E>(error))),
        leaves_succeed(*leaf, inputs@) ==> r is Ok,
{
    let ghost orig = inputs@;
    let mut pending = reversed(inputs);
    let mut out: Vec<P> = Vec::new();
    while pending.len() > 0
        invariant
            forall|i: I| leaf.requires((i,)),
            gate.wf(),
            gate.spec_limit() == old(gate).spec_limit(),
            gate.spec_in_flight() == old(gate).spec_in_flight(),
            old(gate).spec_in_flight() < old(gate).spec_limit(),
            orig == inputs@,
            out@.len() + pending@.len() == orig.len(),
            forall|j: int|
                0 <= j < pending@.len() ==> #[trigger] pending@[j] == orig[orig.len() - 1 - j],
            forall|j: int| 0 <= j < out@.len() ==> #[trigger] leaf.ensures((orig[j],), Ok::<P, E>(out@[j])),
        decreases pending@.len(),
    {
        let index = out.len();
        let ghost before = pending@;
        let x = pending.pop().unwrap();
        assert(x == orig[index as int]);
        let admitted = gate.try_acquire();
        assert(admitted);
        let res = leaf(x);
        gate.release();
        match res {
            Ok(p) => {
                out.push(p);
                assert forall|j: int| 0 <= j < pending@.len() implies #[trigger] pending@[j] == orig[orig.len() - 1 - j] by {
                    assert(pending@[j] == before[j]);
                }
            },
            Err(error) => {
                assert(leaf.ensures((orig[index as int],), Err::<P, E>(error)));
                return Err(ProveError::LeafComputation { index, error });
            },
        }
    }
    proof {
        assert forall|j: int| 0 <= j < out@.len() implies #[trigger] leaf.ensures((inputs@[j],), Ok::<P, E>(out@[j])) by {
            assert(leaf.ensures((orig[j],), Ok::<P, E>(out@[j])));
        }
    }
    Ok(out)
}

/// Two aggregates of the same inputs agree, however each was reached: each
/// from its own leaf proofs and its own pairing of `join` calls, under
/// every model that respects `join` and gives a leaf proof the content
/// that its input determines.
pub proof fn lemma_aggregates_agree<I, P, E, A, G, F>(
    leaf: G,
    join: F,
    model: spec_fn(P) -> Seq<A>,
    of_input: spec_fn(I) -> Seq<A>,
    inputs: Seq<I>,
    ps: Seq<P>,
    qs: Seq<P>,
    v: P,
    w: P,
) where
    G: Fn(I) -> Result<P, E>,
    F: Fn(P, P) -> Result<P, E>,

    requires
        respects(join, model),
        forall|i: I, p: P| #[trigger] leaf.ensures((i,), Ok::<P, E>(p)) ==> model(p) == of_input(i),
        leaves_of(leaf, inputs, ps),
        leaves_of(leaf, inputs, qs),
        built(join, ps, 0, inputs.len() as int, v),
        built(join, qs, 0, inputs.len() as int, w),
    ensures
        model(v) == model(w),
{
    lemma_built_content(join, model, ps, 0, inputs.len() as int, v);
    lemma_built_content(join, model, qs, 0, inputs.len() as int, w);
    assert forall|j: int| 0 <= j < inputs.len() implies model(#[trigger] ps[j]) == model(qs[j]) by {
        assert(leaf.ensures((inputs[j],), Ok::<P, E>(ps[j])));
        assert(leaf.ensures((inputs[j],), Ok::<P, E>(qs[j])));
    }
    lemma_content_pointwise(ps, qs, model, 0, inputs.len() as int);
}

/// Every call of `leaf` on `i` fails.
pub open spec fn leaf_fails_on<I, P, E, G: Fn(I) -> Result<P, E>>(leaf: G, i: I) -> bool {
    forall|o: Result<P, E>| #[trigger] leaf.ensures((i,), o) ==> o is Err
}

/// Block finalizer: wraps an aggregate proof into a block proof, linked to
/// `previous` when there is one. The identity holds no proof to wrap.
pub fn finalize<P, Q, B, E, W: Fn(P, Option<Q>) -> Result<B, E>>(
    agg: Aggregate<P>,
    previous: Option<Q>,
    wrap: &W,
) -> (r: Result<B, ProveError<E>>)
    requires
        forall|p: P, q: Option<Q>| wrap.requires((p, q)),
    ensures
        agg is Identity ==> r matches Err(ProveError::EmptyAggregate),
        agg is Proof ==> (r is Ok || r matches Err(ProveError::Finalize(_))),
        r matches Ok(b) ==> (agg is Proof && wrap.ensures((agg->Proof_0, previous), Ok::<B, E>(b))),
        r matches Err(ProveError::Finalize(e)) ==> (agg is Proof && wrap.ensures(
            (agg->Proof_0, previous),
            Err::<B, E>(e),
        )),
        agg is Proof && wrap_never_fails(*wrap) ==> r is Ok,
{
    match agg {
        Aggregate::Identity => Err(ProveError::EmptyAggregate),
        Aggregate::Proof(p) => match wrap(p, previous) {
            Ok(b) => Ok(b),
            Err(e) => Err(ProveError::Finalize(e)),
        },
    }
}

/// The transactions of one block, as inputs to leaf proofs.
pub struct ProverInput<I> {
    pub proof_gen_ir: Vec<I>,
}

impl<I> ProverInput<I> {
    /// Proves the block in this process: at most `paralellism` leaf proofs
    /// in flight, leaf proofs reduced by a tree of `join` calls, and the
    /// aggregate wrapped by `wrap` with `previous`. Any failure ends the run,
    /// and no block proof comes out of a failed run.
    pub fn prove_in_memory<P, Q, B, E, G, F, W>(
        self,
        paralellism: usize,
        previous: Option<Q>,
        leaf: &G,
        join: &F,
        wrap: &W,
    ) -> (r: Result<B, ProveError<E>>) where
        G: Fn(I) -> Result<P, E>,
        F: Fn(P, P) -> Result<P, E>,
        W: Fn(P, Option<Q>) -> Result<B, E>,

        requires
            forall|i: I| leaf.requires((i,)),
            forall|x: P, y: P| join.requires((x, y)),
            forall|p: P, q: Option<Q>| wrap.requires((p, q)),
        ensures
            paralellism == 0 ==> r matches Err(ProveError::InvalidLimit),
            r matches Err(ProveError::InvalidLimit) ==> paralellism == 0,
            paralellism > 0 && self.proof_gen_ir@.len() == 0 ==> r matches Err(
                ProveError::EmptyAggregate,
            ),
            r matches Err(ProveError::EmptyAggregate) ==> self.proof_gen_ir@.len() == 0,
            r matches Ok(b) ==> block_of(*leaf, *join, *wrap, self.proof_gen_ir@, previous, b),
            r is Err ==> (r matches Err(ProveError::InvalidLimit) || r matches Err(
                ProveError::LeafComputation { .. },
            ) || r matches Err(ProveError::Combine(_)) || r matches Err(ProveError::EmptyAggregate)
                || r matches Err(ProveError::Finalize(_))),
            r matches Err(ProveError::LeafComputation { index, error }) ==> (index
                < self.proof_gen_ir@.len() && leaf.ensures(
                (self.proof_gen_ir@[index as int],),
                Err::<P, E>(error),
            )),
            r matches Err(ProveError::Combine(e)) ==> (self.proof_gen_ir@.len() >= 2 && failed_join(
                *join,
                e,
            )),
            r matches Err(ProveError::Finalize(e)) ==> wrap_failed_on(
                *leaf,
                *join,
                *wrap,
                self.proof_gen_ir@,
                previous,
                e,
            ),
            paralellism > 0 && (exists|j: int|
                0 <= j < self.proof_gen_ir@.len() && leaf_fails_on(
                    *leaf,
                    #[trigger] self.proof_gen_ir@[j],
                )) ==> r matches Err(ProveError::LeafComputation { .. }),
            paralellism > 0 && self.proof_gen_ir@.len() > 0 && leaves_succeed(
                *leaf,
                self.proof_gen_ir@,
            ) && (self.proof_gen_ir@.len() >= 2 ==> join_never_fails(*join)) && wrap_never_fails(
                *wrap,
            ) ==> r is Ok,
    {
        let inputs = self.proof_gen_ir;
        let ghost orig = inputs@;
        let mut gate = match open_gate(paralellism) {
            Ok(g) => g,
            Err(e) => {
                return Err(e);
            },
        };
        let leaves = match map_leaves(inputs, &mut gate, leaf) {
            Ok(ps) => ps,
            Err(e) => {
                return Err(e);
            },
        };
        proof {
            if exists|j: int| 0 <= j < orig.len() && leaf_fails_on(*leaf, #[trigger] orig[j]) {
                let j = choose|j: int| 0 <= j < orig.len() && leaf_fails_on(*leaf, #[trigger] orig[j]);
                assert(leaf.ensures((orig[j],), Ok::<P, E>(leaves@[j])));
            }
        }
        let ghost ps = leaves@;
        let agg = match reduce_leaves(leaves, join) {
            Ok(a) => a,
            Err(e) => {
                return Err(e);
            },
        };
        let ghost a = agg;
        let r = finalize(agg, previous, wrap);
        proof {
            if r is Ok {
                let b = r->Ok_0;
                let p = a->Proof_0;
                assert(leaves_of(*leaf, orig, ps));
                assert(built(*join, ps, 0, orig.len() as int, p));
                assert(wrap.ensures((p, previous), Ok::<B, E>(b)));
            }
            if r is Err && r->Err_0 is Finalize {
                let e = r->Err_0->Finalize_0;
                let p = a->Proof_0;
                assert(leaves_of(*leaf, orig, ps));
                assert(built(*join, ps, 0, orig.len() as int, p));
                assert(wrap.ensures((p, previous), Err::<B, E>(e)));
            }
        }
        r
    }
}

} // verus!
