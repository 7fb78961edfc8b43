use vstd::prelude::*;

use crate::aggregate::{Aggregate, ProveError};

verus! {

/// The shape of a reduction: a single leaf, or two subtrees split at `mid`
/// whose results `x` and `y` were joined.
pub ghost enum Tree<P> {
    Leaf,
    Node { mid: int, left: Box<Tree<P>>, right: Box<Tree<P>>, x: P, y: P },
}

/// `v` is what the tree `t` of successful `join` calls builds from the
/// leaves at positions `lo .. hi`, kept in order.
pub open spec fn built_by<P, E, F: Fn(P, P) -> Result<P, E>>(
    join: F,
    leaves: Seq<P>,
    t: Tree<P>,
    lo: int,
    hi: int,
    v: P,
) -> bool
    decreases t,
{
    match t {
        Tree::Leaf => hi - lo == 1 && v == leaves[lo],
        Tree::Node { mid, left, right, x, y } => {
            &&& lo < mid < hi
            &&& built_by(join, leaves, *left, lo, mid, x)
            &&& built_by(join, leaves, *right, mid, hi, y)
            &&& join.ensures((x, y), Ok::<P, E>(v))
        },
    }
}

/// `v` is what some binary tree of successful `join` calls builds from the
/// leaves at positions `lo .. hi`, kept in order; the tree is any pairing.
#[verifier::opaque]
pub open spec fn built<P, E, F: Fn(P, P) -> Result<P, E>>(
    join: F,
    leaves: Seq<P>,
    lo: int,
    hi: int,
    v: P,
) -> bool {
    exists|t: Tree<P>| built_by(join, leaves, t, lo, hi, v)
}

/// The concatenated contents of the leaves at positions `lo .. hi`.
pub open spec fn content<P, A>(leaves: Seq<P>, model: spec_fn(P) -> Seq<A>, lo: int, hi: int) -> Seq<A>
    decreases hi - lo,
{
    if hi <= lo {
        Seq::empty()
    } else {
        content(leaves, model, lo, hi - 1) + model(leaves[hi - 1])
    }
}

proof fn lemma_content_split<P, A>(leaves: Seq<P>, model: spec_fn(P) -> Seq<A>, lo: int, mid: int, hi: int)
    requires
        lo <= mid <= hi,
    ensures
        content(leaves, model, lo, hi) == content(leaves, model, lo, mid) + content(leaves, model, mid, hi),
    decreases hi - mid,
{
    if hi == mid {
        assert(content(leaves, model, lo, mid) =~= content(leaves, model, lo, mid) + Seq::<A>::empty());
    } else {
        lemma_content_split(leaves, model, lo, mid, hi - 1);
        assert(content(leaves, model, lo, hi) =~= content(leaves, model, lo, mid) + content(leaves, model, mid, hi));
    }
}

proof fn lemma_built_by_content<P, E, A, F: Fn(P, P) -> Result<P, E>>(
    join: F,
    model: spec_fn(P) -> Seq<A>,
    leaves: Seq<P>,
    t: Tree<P>,
    lo: int,
    hi: int,
    v: P,
)
    requires
        crate::aggregate::respects(join, model),
        built_by(join, leaves, t, lo, hi, v),
    ensures
        model(v) == content(leaves, model, lo, hi),
    decreases t,
{
    match t {
        Tree::Leaf => {
            assert(content(leaves, model, lo, lo) == Seq::<A>::empty());
            assert(content(leaves, model, lo, hi) =~= model(leaves[lo]));
        },
        Tree::Node { mid, left, right, x, y } => {
            lemma_built_by_content(join, model, leaves, *left, lo, mid, x);
            lemma_built_by_content(join, model, leaves, *right, mid, hi, y);
            lemma_content_split(leaves, model, lo, mid, hi);
        },
    }
}

/// Under a model that respects `join`, whatever tree built `v` from the
/// leaves `lo .. hi`, the content of `v` is that of the leaves in order.
pub proof fn lemma_built_content<P, E, A, F: Fn(P, P) -> Result<P, E>>(
    join: F,
    model: spec_fn(P) -> Seq<A>,
    leaves: Seq<P>,
    lo: int,
    hi: int,
    v: P,
)
    requires
        crate::aggregate::respects(join, model),
        built(join, leaves, lo, hi, v),
    ensures
        model(v) == content(leaves, model, lo, hi),
{
    reveal(built);
    let t = choose|t: Tree<P>| built_by(join, leaves, t, lo, hi, v);
    lemma_built_by_content(join, model, leaves, t, lo, hi, v);
}

/// Any two reductions of the same leaves, whatever pairing each chose,
/// agree under every model that respects `join`.
pub proof fn lemma_reductions_agree<P, E, A, F: Fn(P, P) -> Result<P, E>>(
    join: F,
    model: spec_fn(P) -> Seq<A>,
    leaves: Seq<P>,
    v: P,
    w: P,
)
    requires
        crate::aggregate::respects(join, model),
        built(join, leaves, 0, leaves.len() as int, v),
        built(join, leaves, 0, leaves.len() as int, w),
    ensures
        model(v) == model(w),
{
    lemma_built_content(join, model, leaves, 0, leaves.len() as int, v);
    lemma_built_content(join, model, leaves, 0, leaves.len() as int, w);
}

/// `e` is an error that `join` returns on some pair of proofs.
pub open spec fn failed_join<P, E, F: Fn(P, P) -> Result<P, E>>(join: F, e: E) -> bool {
    exists|x: P, y: P| join.ensures((x, y), Err::<P, E>(e))
}

/// The contents of two runs of leaves agree where each pair of leaves does.
pub proof fn lemma_content_pointwise<P, A>(
    ps: Seq<P>,
    qs: Seq<P>,
    model: spec_fn(P) -> Seq<A>,
    lo: int,
    hi: int,
)
    requires
        forall|j: int| lo <= j < hi ==> model(#[trigger] ps[j]) == model(qs[j]),
    ensures
        content(ps, model, lo, hi) == content(qs, model, lo, hi),
    decreases hi - lo,
{
    if lo < hi {
        lemma_content_pointwise(ps, qs, model, lo, hi - 1);
        assert(model(ps[hi - 1]) == model(qs[hi - 1]));
    }
}

/// The stack of partial aggregates tiles the leaves from `bounds.last()` up
/// to `bounds[0]`: entry `j` was built from `bounds[j + 1] .. bounds[j]`,
/// and `sizes[j]` is the length of that range.
spec fn tiled<P, E, F: Fn(P, P) -> Result<P, E>>(
    join: F,
    all: Seq<P>,
    stack: Seq<P>,
    sizes: Seq<usize>,
    bounds: Seq<int>,
) -> bool {
    &&& bounds.len() == stack.len() + 1
    &&& sizes.len() == stack.len()
    &&& forall|j: int| 0 <= j < bounds.len() ==> 0 <= #[trigger] bounds[j] <= all.len()
    &&& forall|j: int| 0 <= j < stack.len() ==> bounds[j + 1] < #[trigger] bounds[j]
    &&& forall|j: int|
        #![trigger stack[j]]
        #![trigger sizes[j]]
        0 <= j < stack.len() ==> sizes[j] == bounds[j] - bounds[j + 1] && built(
            join,
            all,
            bounds[j + 1],
            bounds[j],
            stack[j],
        )
}

/// Replaces the two topmost partial aggregates by their combination.
#[verifier::spinoff_prover]
#[verifier::rlimit(50)]
fn merge_top<P, E, F: Fn(P, P) -> Result<P, E>>(
    stack: &mut Vec<P>,
    sizes: &mut Vec<usize>,
    join: &F,
    Ghost(all): Ghost<Seq<P>>,
    Ghost(bounds): Ghost<Seq<int>>,
) -> (r: Result<(), E>)
    requires
        forall|x: P, y: P| join.requires((x, y)),
        all.len() <= usize::MAX,
        old(stack)@.len() >= 2,
        tiled(*join, all, old(stack)@, old(sizes)@, bounds),
    ensures
        r is Ok ==> tiled(*join, all, final(stack)@, final(sizes)@, bounds.remove(old(stack)@.len() - 1)),
        r is Ok ==> final(stack)@.len() == old(stack)@.len() - 1,
        r is Err ==> failed_join(*join, r->Err_0),
{
    let ghost k = stack@.len() as int;
    let ghost s0 = stack@;
    let ghost z0 = sizes@;
    let x = stack.pop().unwrap();
    let y = stack.pop().unwrap();
    let sx = sizes.pop().unwrap();
    let sy = sizes.pop().unwrap();
    assert(s0[k - 1] == x && s0[k - 2] == y);
    assert(built(*join, all, bounds[k], bounds[k - 1], x));
    assert(built(*join, all, bounds[k - 1], bounds[k - 2], y));
    let ghost lo = bounds[k];
    let ghost mid = bounds[k - 1];
    let ghost hi = bounds[k - 2];
    assert(0 <= bounds[k] && bounds[k - 2] <= all.len());
    let res = join(x, y);
    match res {
        Ok(v) => {
            assert(bounds[k] < bounds[k - 1] < bounds[k - 2]);
            assert(join.ensures((x, y), Ok::<P, E>(v)));
            proof {
                reveal(built);
                let tx = choose|t: Tree<P>| built_by(*join, all, t, lo, mid, x);
                let ty = choose|t: Tree<P>| built_by(*join, all, t, mid, hi, y);
                let tv = Tree::Node { mid, left: Box::new(tx), right: Box::new(ty), x, y };
                assert(built_by(*join, all, tv, lo, hi, v));
            }
            assert(built(*join, all, lo, hi, v));
            stack.push(v);
            sizes.push(sx + sy);
            let ghost nb = bounds.remove(k - 1);
            assert forall|j: int|
                #![trigger stack@[j]]
                #![trigger sizes@[j]]
                0 <= j < stack@.len() implies sizes@[j] == nb[j] - nb[j + 1] && built(
                *join,
                all,
                nb[j + 1],
                nb[j],
                stack@[j],
            ) by {
                if j < k - 2 {
                    assert(stack@[j] == s0[j] && sizes@[j] == z0[j]);
                }
            }
            assert forall|j: int| 0 <= j < stack@.len() implies nb[j + 1] < #[trigger] nb[j] by {
                if j < k - 2 {
                    assert(bounds[j + 1] < bounds[j]);
                } else {
                    assert(nb[j] == bounds[j] && nb[j + 1] == bounds[j + 2]);
                }
            }
            assert forall|j: int| 0 <= j < nb.len() implies 0 <= #[trigger] nb[j] <= all.len() by {
                if j >= k - 1 {
                    assert(nb[j] == bounds[j + 1]);
                }
            }
            assert(tiled(*join, all, stack@, sizes@, nb));
            Ok(())
        },
        Err(e) => {
            assert(join.ensures((x, y), Err::<P, E>(e)));
            assert(failed_join(*join, e));
            Err(e)
        },
    }
}

/// Every call of `join` succeeds.
pub open spec fn join_never_fails<P, E, F: Fn(P, P) -> Result<P, E>>(join: F) -> bool {
    forall|x: P, y: P, o: Result<P, E>| #[trigger] join.ensures((x, y), o) ==> o is Ok
}

/// Reduces leaf proofs to one aggregate by a balanced tree of `join` calls
/// that keeps the leaves in order: equal-sized neighbours are joined as soon
/// as they exist, and what is left is joined at the end. No leaf is dropped
/// or used twice, and the first failing `join` ends the reduction.
pub fn reduce_leaves<P, E, F: Fn(P, P) -> Result<P, E>>(leaves: Vec<P>, join: &F) -> (r: Result<
    Aggregate<P>,
    ProveError<E>,
>)
    requires
        forall|x: P, y: P| join.requires((x, y)),
    ensures
        leaves@.len() == 0 ==> r matches Ok(Aggregate::Identity),
        leaves@.len() == 1 ==> (r matches Ok(Aggregate::Proof(p)) && p == leaves@[0]),
        leaves@.len() > 0 && r is Ok ==> (r matches Ok(Aggregate::Proof(p)) && built(
            *join,
            leaves@,
            0,
            leaves@.len() as int,
            p,
        )),
        r is Err ==> (r matches Err(ProveError::Combine(e)) && failed_join(*join, e)),
        join_never_fails(*join) ==> r is Ok,
{
    let total = leaves.len();
    assert(total == leaves@.len());
    let ghost all = leaves@;
    let ghost n = total as int;
    let mut rest = leaves;
    let mut stack: Vec<P> = Vec::new();
    let mut sizes: Vec<usize> = Vec::new();
    let ghost mut bounds: Seq<int> = seq![n];
    while rest.len() > 0
        invariant
            forall|x: P, y: P| join.requires((x, y)),
            all == leaves@,
            all.len() == n,
            n <= usize::MAX,
            rest@ == all.subrange(0, rest@.len() as int),
            tiled(*join, all, stack@, sizes@, bounds),
            bounds[0] == n,
            bounds.last() == rest@.len(),
            rest@.len() + stack@.len() <= n,
        decreases rest@.len(),
    {
        let ghost before = rest@.len() as int;
        let x = rest.pop().unwrap();
        assert(x == all[before - 1]);
        proof {
            reveal(built);
            assert(built_by(*join, all, Tree::Leaf, before - 1, before, x));
        }
        let ghost s0 = stack@;
        let ghost z0 = sizes@;
        let ghost b0 = bounds;
        stack.push(x);
        sizes.push(1);
        proof {
            bounds = bounds.push(before - 1);
            assert forall|j: int|
                #![trigger stack@[j]]
                #![trigger sizes@[j]]
                0 <= j < stack@.len() implies sizes@[j] == bounds[j] - bounds[j + 1] && built(
                *join,
                all,
                bounds[j + 1],
                bounds[j],
                stack@[j],
            ) by {
                if j < s0.len() {
                    assert(stack@[j] == s0[j] && sizes@[j] == z0[j]);
                }
            }
            assert forall|j: int| 0 <= j < stack@.len() implies bounds[j + 1] < #[trigger] bounds[j] by {
                if j < s0.len() {
                    assert(b0[j + 1] < b0[j]);
                }
            }
            assert(rest@ =~= all.subrange(0, rest@.len() as int));
        }
        while stack.len() >= 2 && sizes[sizes.len() - 1] == sizes[sizes.len() - 2]
            invariant
                forall|x: P, y: P| join.requires((x, y)),
                all == leaves@,
                all.len() == n,
                n <= usize::MAX,
                rest@ == all.subrange(0, rest@.len() as int),
                tiled(*join, all, stack@, sizes@, bounds),
                bounds[0] == n,
                bounds.last() == rest@.len(),
                rest@.len() + stack@.len() <= n,
            decreases stack@.len(),
        {
            match merge_top(&mut stack, &mut sizes, join, Ghost(all), Ghost(bounds)) {
                Ok(()) => {
                    proof {
                        let b0 = bounds;
                        bounds = bounds.remove(bounds.len() - 2);
                        assert(bounds[0] == b0[0]);
                        assert(bounds.last() == b0.last());
                    }
                },
                Err(e) => {
                    return Err(ProveError::Combine(e));
                },
            }
        }
    }
    while stack.len() >= 2
        invariant
            forall|x: P, y: P| join.requires((x, y)),
            all == leaves@,
            all.len() == n,
            n <= usize::MAX,
            tiled(*join, all, stack@, sizes@, bounds),
            bounds[0] == n,
            bounds.last() == 0,
            stack@.len() <= n,
        decreases stack@.len(),
    {
        match merge_top(&mut stack, &mut sizes, join, Ghost(all), Ghost(bounds)) {
            Ok(()) => {
                proof {
                    let b0 = bounds;
                    bounds = bounds.remove(bounds.len() - 2);
                    assert(bounds[0] == b0[0]);
                    assert(bounds.last() == b0.last());
                }
            },
            Err(e) => {
                return Err(ProveError::Combine(e));
            },
        }
    }
    match stack.pop() {
        None => Ok(Aggregate::Identity),
        Some(p) => {
            assert(built(*join, all, bounds[1], bounds[0], p));
            proof {
                if n == 1 {
                    reveal(built);
                    let t = choose|t: Tree<P>| built_by(*join, all, t, 0, 1, p);
                    assert(t is Leaf);
                }
            }
            Ok(Aggregate::Proof(p))
        },
    }
}

} // verus!
