use vstd::prelude::*;

verus! {

/// A value of the proof monoid.
#[derive(Debug)]
pub enum Aggregate<P> {
    /// The neutral value: no proof yet.
    Identity,
    /// One aggregate proof, covering one or more transactions.
    Proof(P),
}

/// Failure of a proving run, by the stage that failed. `E` is the error
/// of the proving collaborator; the runtime's error is held as text.
#[derive(Debug)]
pub enum ProveError<E> {
    /// The limit on concurrent leaf computations was zero.
    InvalidLimit,
    /// The leaf proof of the input at `index` could not be produced.
    LeafComputation { index: usize, error: E },
    /// Two proofs could not be combined.
    Combine(E),
    /// A computed aggregate was not a proof where one was required.
    ShapeMismatch,
    /// Finalization was attempted on the identity.
    EmptyAggregate,
    /// Wrapping the aggregate into a block proof failed.
    Finalize(E),
    /// The distributed runtime reported a failure.
    Runtime(String),
}

/// What `combine` may return: the other operand where one is the identity,
/// and what `join` returns for two proofs.
pub open spec fn combines<P, E, F: Fn(P, P) -> Result<P, E>>(
    join: F,
    a: Aggregate<P>,
    b: Aggregate<P>,
    r: Aggregate<P>,
) -> bool {
    match (a, b) {
        (Aggregate::Identity, _) => r == b,
        (_, Aggregate::Identity) => r == a,
        (Aggregate::Proof(x), Aggregate::Proof(y)) => r matches Aggregate::Proof(v) && join.ensures(
            (x, y),
            Ok(v),
        ),
    }
}

/// The content of an aggregate under a model of proofs: empty for the identity.
pub open spec fn agg_model<P, A>(a: Aggregate<P>, model: spec_fn(P) -> Seq<A>) -> Seq<A> {
    match a {
        Aggregate::Identity => Seq::empty(),
        Aggregate::Proof(p) => model(p),
    }
}

/// `model` maps every successful `join` to the concatenation of the contents
/// of its operands: it is a homomorphism of the proving algebra.
pub open spec fn respects<P, E, A, F: Fn(P, P) -> Result<P, E>>(
    join: F,
    model: spec_fn(P) -> Seq<A>,
) -> bool {
    forall|x: P, y: P, v: P|
        #[trigger] join.ensures((x, y), Ok::<P, E>(v)) ==> model(v) == model(x) + model(y)
}

/// Combines two aggregates. The identity is neutral on both sides and costs
/// no call; two proofs are handed to `join`, whose error is passed on.
pub fn combine<P, E, F: Fn(P, P) -> Result<P, E>>(
    a: Aggregate<P>,
    b: Aggregate<P>,
    join: &F,
) -> (r: Result<Aggregate<P>, E>)
    requires
        forall|x: P, y: P| join.requires((x, y)),
    ensures
        a is Identity ==> r == Ok::<Aggregate<P>, E>(b),
        b is Identity ==> r == Ok::<Aggregate<P>, E>(a),
        r matches Ok(v) ==> combines(*join, a, b, v),
        r matches Err(e) ==> (a, b) matches (Aggregate::Proof(x), Aggregate::Proof(y)) && join.ensures(
            (x, y),
            Err(e),
        ),
{
    match a {
        Aggregate::Identity => Ok(b),
        Aggregate::Proof(x) => match b {
            Aggregate::Identity => Ok(Aggregate::Proof(x)),
            Aggregate::Proof(y) => match join(x, y) {
                Ok(v) => Ok(Aggregate::Proof(v)),
                Err(e) => Err(e),
            },
        },
    }
}

/// Under a model that respects `join`, the content of a combination is the
/// concatenation of the contents of its operands.
pub proof fn lemma_combine_model<P, E, A, F: Fn(P, P) -> Result<P, E>>(
    join: F,
    model: spec_fn(P) -> Seq<A>,
    a: Aggregate<P>,
    b: Aggregate<P>,
    r: Aggregate<P>,
)
    requires
        respects(join, model),
        combines(join, a, b, r),
    ensures
        agg_model(r, model) == agg_model(a, model) + agg_model(b, model),
{
    match (a, b) {
        (Aggregate::Identity, _) => {
            assert(agg_model(b, model) =~= Seq::<A>::empty() + agg_model(b, model));
        },
        (_, Aggregate::Identity) => {
            assert(agg_model(a, model) =~= agg_model(a, model) + Seq::<A>::empty());
        },
        (Aggregate::Proof(x), Aggregate::Proof(y)) => {
            let v = r->Proof_0;
            assert(join.ensures((x, y), Ok::<P, E>(v)));
        },
    }
}

/// Combination is associative: the two ways of combining `a`, `b` and `c`
/// in order give aggregates that every model respecting `join` holds equal.
pub proof fn lemma_combine_associative<P, E, A, F: Fn(P, P) -> Result<P, E>>(
    join: F,
    model: spec_fn(P) -> Seq<A>,
    a: Aggregate<P>,
    b: Aggregate<P>,
    c: Aggregate<P>,
    ab: Aggregate<P>,
    ab_c: Aggregate<P>,
    bc: Aggregate<P>,
    a_bc: Aggregate<P>,
)
    requires
        respects(join, model),
        combines(join, a, b, ab),
        combines(join, ab, c, ab_c),
        combines(join, b, c, bc),
        combines(join, a, bc, a_bc),
    ensures
        agg_model(ab_c, model) == agg_model(a_bc, model),
{
    lemma_combine_model(join, model, a, b, ab);
    lemma_combine_model(join, model, ab, c, ab_c);
    lemma_combine_model(join, model, b, c, bc);
    lemma_combine_model(join, model, a, bc, a_bc);
    assert(agg_model(ab_c, model) =~= agg_model(a_bc, model));
}

/// The proof inside an aggregate that must hold one, as a runtime's result
/// must after a non-empty batch: the identity is a shape mismatch.
pub fn expect_proof<P, E>(a: Aggregate<P>) -> (r: Result<P, ProveError<E>>)
    ensures
        a matches Aggregate::Proof(p) ==> r == Ok::<P, ProveError<E>>(p),
        a is Identity ==> r matches Err(ProveError::ShapeMismatch),
{
    match a {
        Aggregate::Proof(p) => Ok(p),
        Aggregate::Identity => Err(ProveError::ShapeMismatch),
    }
}

} // verus!
