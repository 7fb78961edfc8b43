use std::cell::Cell;

use leader::aggregate::{combine, expect_proof, Aggregate, ProveError};
use leader::distributed::{accept_block_result, accept_fold_result};
use leader::gate::Gate;
use leader::prover::{combine_step, finalize, leaf_aggregate, map_leaves, open_gate, ProverInput};
use leader::reduce::reduce_leaves;

fn leaf(i: u32) -> Result<String, String> {
    Ok(format!("t{}", i))
}

fn join(a: String, b: String) -> Result<String, String> {
    Ok(format!("{}+{}", a, b))
}

fn wrap(p: String, prev: Option<String>) -> Result<String, String> {
    match prev {
        Some(q) => Ok(format!("block[{}]<-{}", p, q)),
        None => Ok(format!("block[{}]", p)),
    }
}

fn proof_of(a: Aggregate<String>) -> String {
    match a {
        Aggregate::Proof(p) => p,
        Aggregate::Identity => panic!("expected a proof"),
    }
}

#[test]
fn identity_is_neutral_on_both_sides() {
    let l = combine(Aggregate::Identity, Aggregate::Proof("t7".to_string()), &join).unwrap();
    assert_eq!(proof_of(l), "t7");
    let r = combine(Aggregate::Proof("t7".to_string()), Aggregate::Identity, &join).unwrap();
    assert_eq!(proof_of(r), "t7");
    let both = combine::<String, String, _>(Aggregate::Identity, Aggregate::Identity, &join).unwrap();
    assert!(matches!(both, Aggregate::Identity));
}

#[test]
fn identity_costs_no_call() {
    let calls = Cell::new(0usize);
    let counting = |a: String, b: String| {
        calls.set(calls.get() + 1);
        join(a, b)
    };
    let _ = combine(Aggregate::Identity, Aggregate::Proof("t1".to_string()), &counting).unwrap();
    assert_eq!(calls.get(), 0);
    let _ = combine(Aggregate::Proof("t1".to_string()), Aggregate::Proof("t2".to_string()), &counting).unwrap();
    assert_eq!(calls.get(), 1);
}

#[test]
fn combine_is_associative_on_proofs() {
    let a = || Aggregate::Proof("a".to_string());
    let b = || Aggregate::Proof("b".to_string());
    let c = || Aggregate::Proof("c".to_string());
    let ab = combine(a(), b(), &join).unwrap();
    let ab_c = combine(ab, c(), &join).unwrap();
    let bc = combine(b(), c(), &join).unwrap();
    let a_bc = combine(a(), bc, &join).unwrap();
    assert_eq!(proof_of(ab_c), "a+b+c");
    assert_eq!(proof_of(a_bc), "a+b+c");
}

#[test]
fn combine_passes_on_join_error() {
    let failing = |_a: String, _b: String| -> Result<String, String> { Err("circuit".to_string()) };
    let r = combine(Aggregate::Proof("a".to_string()), Aggregate::Proof("b".to_string()), &failing);
    assert_eq!(r.err(), Some("circuit".to_string()));
}

#[test]
fn empty_batch_reduces_to_identity_and_does_not_finalize() {
    let r = reduce_leaves(Vec::<String>::new(), &join).unwrap();
    assert!(matches!(r, Aggregate::Identity));
    let f = finalize(r, None, &wrap);
    assert!(matches!(f, Err(ProveError::EmptyAggregate)));
    let whole = ProverInput { proof_gen_ir: Vec::<u32>::new() }.prove_in_memory(2, None, &leaf, &join, &wrap);
    assert!(matches!(whole, Err(ProveError::EmptyAggregate)));
}

#[test]
fn single_leaf_reduces_to_itself() {
    let r = reduce_leaves(vec!["t0".to_string()], &join).unwrap();
    assert_eq!(proof_of(r), "t0");
    let b = ProverInput { proof_gen_ir: vec![0u32] }.prove_in_memory(1, None, &leaf, &join, &wrap).unwrap();
    assert_eq!(b, "block[t0]");
}

#[test]
fn reduction_keeps_leaf_order_whatever_the_pairing() {
    let leaves: Vec<String> = (0..7).map(|i| format!("t{}", i)).collect();
    let tree = proof_of(reduce_leaves(leaves.clone(), &join).unwrap());
    let mut left = Aggregate::Identity;
    for l in leaves.clone() {
        left = combine(left, Aggregate::Proof(l), &join).unwrap();
    }
    let mut right = Aggregate::Identity;
    for l in leaves.into_iter().rev() {
        right = combine(Aggregate::Proof(l), right, &join).unwrap();
    }
    assert_eq!(tree, "t0+t1+t2+t3+t4+t5+t6");
    assert_eq!(proof_of(left), tree);
    assert_eq!(proof_of(right), tree);
}

#[test]
fn reduction_is_a_balanced_tree() {
    let shaped = |a: String, b: String| -> Result<String, String> { Ok(format!("({} {})", a, b)) };
    let leaves: Vec<String> = (0..4).map(|i| format!("t{}", i)).collect();
    let r = proof_of(reduce_leaves(leaves, &shaped).unwrap());
    assert_eq!(r, "((t0 t1) (t2 t3))");
    let five: Vec<String> = (0..5).map(|i| format!("t{}", i)).collect();
    let r5 = proof_of(reduce_leaves(five, &shaped).unwrap());
    assert_eq!(r5, "(t0 ((t1 t2) (t3 t4)))");
}

#[test]
fn reduction_stops_on_combine_error() {
    let failing = |_a: String, _b: String| -> Result<String, String> { Err("combine".to_string()) };
    let r = reduce_leaves(vec!["a".to_string(), "b".to_string()], &failing);
    assert!(matches!(r, Err(ProveError::Combine(ref e)) if e == "combine"));
    let whole = ProverInput { proof_gen_ir: vec![1u32, 2] }.prove_in_memory(1, None, &leaf, &failing, &wrap);
    assert!(matches!(whole, Err(ProveError::Combine(_))));
}

#[test]
fn gate_refuses_zero_limit() {
    assert!(Gate::new(0).is_none());
    let whole = ProverInput { proof_gen_ir: vec![1u32] }.prove_in_memory(0, None, &leaf, &join, &wrap);
    assert!(matches!(whole, Err(ProveError::InvalidLimit)));
}

#[test]
fn gate_never_admits_more_than_limit() {
    for limit in [1usize, 4, 64] {
        let mut g = Gate::new(limit).unwrap();
        let mut admitted = 0usize;
        for _ in 0..(limit * 3) {
            if g.try_acquire() {
                admitted += 1;
            }
            assert!(g.in_flight() <= g.limit());
        }
        assert_eq!(admitted, limit);
        assert!(g.is_saturated());
        g.release();
        assert!(!g.is_saturated());
        assert!(g.try_acquire());
        assert!(!g.try_acquire());
        assert_eq!(g.in_flight(), limit);
    }
}

#[test]
fn map_stage_releases_every_slot() {
    let mut g = Gate::new(2).unwrap();
    let ps = map_leaves(vec![3u32, 1, 2], &mut g, &leaf).unwrap();
    assert_eq!(ps, vec!["t3".to_string(), "t1".to_string(), "t2".to_string()]);
    assert_eq!(g.in_flight(), 0);
    let failing = |i: u32| -> Result<String, String> {
        if i == 1 { Err("bad".to_string()) } else { leaf(i) }
    };
    let r = map_leaves(vec![3u32, 1, 2], &mut g, &failing);
    assert!(matches!(r, Err(ProveError::LeafComputation { index: 1, .. })));
    assert_eq!(g.in_flight(), 0);
}

#[test]
fn failing_leaf_aborts_the_run() {
    let combines = Cell::new(0usize);
    let counting_join = |a: String, b: String| {
        combines.set(combines.get() + 1);
        join(a, b)
    };
    let failing = |i: u32| -> Result<String, String> {
        if i == 2 { Err("leaf 2".to_string()) } else { leaf(i) }
    };
    let r = ProverInput { proof_gen_ir: vec![0u32, 1, 2, 3] }.prove_in_memory(2, None, &failing, &counting_join, &wrap);
    match r {
        Err(ProveError::LeafComputation { index, error }) => {
            assert_eq!(index, 2);
            assert_eq!(error, "leaf 2");
        }
        _ => panic!("expected a leaf failure"),
    }
    assert_eq!(combines.get(), 0);
}

#[test]
fn four_inputs_two_slots_give_one_block() {
    let active = Cell::new(0usize);
    let peak = Cell::new(0usize);
    let computed = Cell::new(0usize);
    let instrumented = |i: u32| {
        active.set(active.get() + 1);
        if active.get() > peak.get() {
            peak.set(active.get());
        }
        computed.set(computed.get() + 1);
        let r = leaf(i);
        active.set(active.get() - 1);
        r
    };
    let b = ProverInput { proof_gen_ir: vec![0u32, 1, 2, 3] }
        .prove_in_memory(2, None, &instrumented, &join, &wrap)
        .unwrap();
    assert_eq!(b, "block[t0+t1+t2+t3]");
    assert_eq!(computed.get(), 4);
    assert!(peak.get() <= 2);
}

#[test]
fn previous_block_is_linked() {
    let b = ProverInput { proof_gen_ir: vec![5u32, 6] }
        .prove_in_memory(3, Some("block[t4]".to_string()), &leaf, &join, &wrap)
        .unwrap();
    assert_eq!(b, "block[t5+t6]<-block[t4]");
}

#[test]
fn finalize_passes_on_wrap_error() {
    let failing = |_p: String, _q: Option<String>| -> Result<String, String> { Err("wrap".to_string()) };
    let r = finalize(Aggregate::Proof("t1".to_string()), None, &failing);
    assert!(matches!(r, Err(ProveError::Finalize(ref e)) if e == "wrap"));
    let whole = ProverInput { proof_gen_ir: vec![1u32] }.prove_in_memory(1, None, &leaf, &join, &failing);
    assert!(matches!(whole, Err(ProveError::Finalize(_))));
}

#[test]
fn distributed_result_shape_is_checked() {
    let ok: Result<String, ProveError<String>> = accept_fold_result(2, Ok(Aggregate::Proof("t0+t1".to_string())));
    assert_eq!(ok.unwrap(), "t0+t1");
    let unit: Result<String, ProveError<String>> = accept_fold_result(3, Ok(Aggregate::Identity));
    assert!(matches!(unit, Err(ProveError::ShapeMismatch)));
    let down: Result<String, ProveError<String>> = accept_fold_result(1, Err("worker lost".to_string()));
    assert!(matches!(down, Err(ProveError::Runtime(ref m)) if m == "worker lost"));
    let e: Result<String, ProveError<String>> = expect_proof(Aggregate::Identity);
    assert!(matches!(e, Err(ProveError::ShapeMismatch)));
    let b: Result<u8, ProveError<String>> = accept_block_result(Ok(9u8));
    assert_eq!(b.unwrap(), 9);
    let bf: Result<u8, ProveError<String>> = accept_block_result(Err("timeout".to_string()));
    assert!(matches!(bf, Err(ProveError::Runtime(ref m)) if m == "timeout"));
}

#[test]
fn distributed_empty_batch_has_nothing_to_finalize() {
    let empty: Result<String, ProveError<String>> = accept_fold_result(0, Ok(Aggregate::Identity));
    assert!(matches!(empty, Err(ProveError::EmptyAggregate)));
}

#[test]
fn single_input_needs_no_combine() {
    let failing = |_a: String, _b: String| -> Result<String, String> { Err("combine".to_string()) };
    let b = ProverInput { proof_gen_ir: vec![4u32] }.prove_in_memory(1, None, &leaf, &failing, &wrap).unwrap();
    assert_eq!(b, "block[t4]");
}

#[test]
fn run_steps_report_their_stage() {
    assert!(matches!(open_gate::<String>(0), Err(ProveError::InvalidLimit)));
    assert_eq!(open_gate::<String>(3).unwrap().limit(), 3);
    let ok = leaf_aggregate::<String, String>(0, Ok("t0".to_string())).unwrap();
    assert_eq!(proof_of(ok), "t0");
    let bad = leaf_aggregate::<String, String>(5, Err("leaf".to_string()));
    assert!(matches!(bad, Err(ProveError::LeafComputation { index: 5, ref error }) if error == "leaf"));
    let joined = combine_step(Aggregate::Proof("a".to_string()), Aggregate::Proof("b".to_string()), &join).unwrap();
    assert_eq!(proof_of(joined), "a+b");
    let failing = |_a: String, _b: String| -> Result<String, String> { Err("combine".to_string()) };
    let r = combine_step(Aggregate::Proof("a".to_string()), Aggregate::Proof("b".to_string()), &failing);
    assert!(matches!(r, Err(ProveError::Combine(ref e)) if e == "combine"));
    let kept = combine_step(Aggregate::Identity, Aggregate::Proof("b".to_string()), &failing).unwrap();
    assert_eq!(proof_of(kept), "b");
}
