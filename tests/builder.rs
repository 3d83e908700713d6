use qip::ops::{flatten_controls, matrix_len_ok, QubitOp};
use qip::pipeline::{check_bindings, plan};
use qip::qubits::{CircuitError, InitialState, OpBuilder, Parent, Qubit, Register};

fn h() -> Vec<f64> {
    let s = 1.0 / 2.0_f64.sqrt();
    vec![s, s, s, -s]
}

fn x() -> Vec<f64> {
    vec![0.0, 1.0, 1.0, 0.0]
}

fn op_of(b: &OpBuilder<f64>, id: u64) -> Option<&QubitOp<f64>> {
    match &b.node(id as usize).parent {
        Some(Parent::Owned(_, Some(op))) => Some(op),
        _ => None,
    }
}

#[test]
fn register_allocates_contiguous_indices() {
    let mut b: OpBuilder<f64> = OpBuilder::new();
    let q = b.qubit().unwrap();
    let r = b.register(3).unwrap();
    assert_eq!(q.indices, vec![0]);
    assert_eq!(r.indices, vec![1, 2, 3]);
    assert_eq!(q.id, 0);
    assert_eq!(r.id, 1);
    assert_eq!(r.width(), 3);
    assert_eq!(b.node_count(), 2);
}

#[test]
fn register_of_width_zero_fails() {
    let mut b: OpBuilder<f64> = OpBuilder::new();
    assert!(matches!(b.register(0), Err(CircuitError::EmptyWidth)));
    assert_eq!(b.node_count(), 0);
}

#[test]
fn merge_sorts_and_gives_fresh_id() {
    let mut b: OpBuilder<f64> = OpBuilder::new();
    let q0 = b.register(2).unwrap();
    let q1 = b.qubit().unwrap();
    let m = b.merge(vec![q1, q0]).unwrap();
    assert_eq!(m.indices, vec![0, 1, 2]);
    assert_eq!(m.id, 2);
    match &b.node(2).parent {
        Some(Parent::Owned(ch, None)) => assert_eq!(ch, &vec![1, 0]),
        _ => panic!("merge must record an owned node without op"),
    }
}

#[test]
fn merge_single_register_is_fresh_no_op() {
    let mut b: OpBuilder<f64> = OpBuilder::new();
    let q = b.register(2).unwrap();
    let m = b.merge(vec![q]).unwrap();
    assert_eq!(m.indices, vec![0, 1]);
    assert_eq!(m.id, 1);
}

#[test]
fn merge_of_nothing_fails() {
    let mut b: OpBuilder<f64> = OpBuilder::new();
    assert!(matches!(b.merge(vec![]), Err(CircuitError::EmptyWidth)));
}

#[test]
fn merge_with_fn_rejects_duplicate_index() {
    let qs = vec![
        Register { indices: vec![3, 1], id: 0 },
        Register { indices: vec![2, 3], id: 1 },
    ];
    let r: Result<Qubit<f64>, CircuitError> = Qubit::merge_with_fn(7, &qs, None);
    assert!(matches!(r, Err(CircuitError::IndexConflict)));
    let qs = vec![
        Register { indices: vec![3, 1], id: 0 },
        Register { indices: vec![2, 0], id: 1 },
    ];
    let r: Qubit<f64> = Qubit::merge_with_fn(7, &qs, None).unwrap();
    assert_eq!(r.indices, vec![0, 1, 2, 3]);
    assert_eq!(r.id, 7);
}

#[test]
fn split_keeps_selection_order_and_remaining_order() {
    let mut b: OpBuilder<f64> = OpBuilder::new();
    let q = b.register(4).unwrap();
    let (a, c) = b.split(q, vec![3, 1]).unwrap();
    assert_eq!(a.indices, vec![3, 1]);
    assert_eq!(c.indices, vec![0, 2]);
    assert!(matches!(b.node(a.id as usize).parent, Some(Parent::Shared(0))));
    assert!(matches!(b.node(c.id as usize).parent, Some(Parent::Shared(0))));
}

#[test]
fn split_errors() {
    let mut b: OpBuilder<f64> = OpBuilder::new();
    let q = b.register(2).unwrap();
    assert!(matches!(b.split(q, vec![]), Err(CircuitError::EmptyWidth)));
    let q = b.register(2).unwrap();
    assert!(matches!(b.split(q, vec![2, 3]), Err(CircuitError::EmptyWidth)));
    let q = b.register(2).unwrap();
    assert!(matches!(b.split(q, vec![0]), Err(CircuitError::IndexConflict)));
    let q = b.register(2).unwrap();
    assert!(matches!(b.split(q, vec![6, 6]), Err(CircuitError::IndexConflict)));
}

#[test]
fn merge_then_split_round_trip() {
    let mut b: OpBuilder<f64> = OpBuilder::new();
    let qa = b.register(2).unwrap();
    let qb = b.register(3).unwrap();
    let ia = qa.indices.clone();
    let ib = qb.indices.clone();
    let m = b.merge(vec![qb, qa]).unwrap();
    let (a, c) = b.split(m, ia.clone()).unwrap();
    assert_eq!(a.indices, ia);
    assert_eq!(c.indices, ib);
    assert!(a.id != 0 && c.id != 1);
}

#[test]
fn mat_checks_matrix_length() {
    let mut b: OpBuilder<f64> = OpBuilder::new();
    let q = b.qubit().unwrap();
    assert!(matches!(b.mat(q, vec![1.0, 0.0, 0.0]), Err(CircuitError::ShapeMismatch)));
    let q = b.register(2).unwrap();
    assert!(matches!(b.mat(q, x()), Err(CircuitError::ShapeMismatch)));
    let q = b.qubit().unwrap();
    let q2 = b.mat(q, h()).unwrap();
    assert_eq!(q2.indices, vec![3]);
    match op_of(&b, q2.id - 1) {
        Some(QubitOp::MatrixOp(i, m)) => {
            assert_eq!(i, &vec![3]);
            assert_eq!(m.len(), 4);
        }
        _ => panic!("expected a matrix op"),
    }
}

#[test]
fn controlled_op_wraps_in_control() {
    let mut b: OpBuilder<f64> = OpBuilder::new();
    let qa = b.qubit().unwrap();
    let qb = b.qubit().unwrap();
    b.with_context(qa);
    let qb = b.mat(qb, x()).unwrap();
    let qa = b.release_context().unwrap();
    assert_eq!(qa.indices, vec![0]);
    assert_eq!(qb.indices, vec![1]);
    let op_node = 2;
    match op_of(&b, op_node) {
        Some(op) => {
            let (c, base) = flatten_controls(op);
            assert_eq!(c, vec![0]);
            assert!(matches!(base, QubitOp::MatrixOp(i, _) if i == &vec![1]));
        }
        None => panic!("expected an op"),
    }
    assert!(b.release_context().is_none());
}

#[test]
fn control_overlapping_operand_fails() {
    let mut b: OpBuilder<f64> = OpBuilder::new();
    let q = b.register(2).unwrap();
    let (c, t) = b.split(q, vec![0]).unwrap();
    let same_as_control = Register { indices: c.indices.clone(), id: c.id };
    b.with_context(c);
    let before = b.node_count();
    let r = b.mat(same_as_control, x());
    assert!(matches!(r, Err(CircuitError::IndexConflict)));
    assert_eq!(b.node_count(), before);
    assert!(b.mat(t, x()).is_ok());
}

#[test]
fn swap_width_mismatch_fails() {
    let mut b: OpBuilder<f64> = OpBuilder::new();
    let qa = b.register(2).unwrap();
    let qb = b.register(3).unwrap();
    assert!(matches!(b.swap(qa, qb), Err(CircuitError::ShapeMismatch)));
}

#[test]
fn nested_controls_flatten_three_deep() {
    let mut b: OpBuilder<f64> = OpBuilder::new();
    let c1 = b.qubit().unwrap();
    let c2 = b.qubit().unwrap();
    let c3 = b.qubit().unwrap();
    let t = b.qubit().unwrap();
    b.with_context(c1);
    b.with_context(c2);
    b.with_context(c3);
    let t = b.mat(t, x()).unwrap();
    let op_node = t.id - 4;
    match op_of(&b, op_node) {
        Some(op) => {
            let (c, base) = flatten_controls(op);
            assert_eq!(c, vec![0, 1, 2]);
            assert!(matches!(base, QubitOp::MatrixOp(i, _) if i == &vec![3]));
            assert!(matches!(op, QubitOp::ControlOp(c, _) if c == &vec![0]));
        }
        None => panic!("expected an op"),
    }
    let c3 = b.release_context().unwrap();
    let c2 = b.release_context().unwrap();
    let c1 = b.release_context().unwrap();
    assert_eq!((c1.indices, c2.indices, c3.indices), (vec![0], vec![1], vec![2]));
}

#[test]
fn measure_issues_handles_in_order() {
    let mut b: OpBuilder<f64> = OpBuilder::new();
    let q = b.qubit().unwrap();
    let (q, m0) = b.measure(q).unwrap();
    let (q, m1) = b.measure(q).unwrap();
    assert_eq!((m0, m1), (0, 1));
    assert_eq!(q.indices, vec![0]);
    assert!(matches!(op_of(&b, 1), Some(QubitOp::MeasureOp(i, 0)) if i == &vec![0]));
}

#[test]
fn bell_circuit_plan() {
    let mut b: OpBuilder<f64> = OpBuilder::new();
    let qa = b.qubit().unwrap();
    let qb = b.qubit().unwrap();
    let (ida, idb) = (qa.id, qb.id);
    let qa = b.mat(qa, h()).unwrap();
    b.with_context(qa);
    let qb = b.mat(qb, x()).unwrap();
    let qa = b.release_context().unwrap();
    let r = b.merge(vec![qa, qb]).unwrap();
    let p = plan(&b, &r);
    assert_eq!(p.leaves, vec![ida, idb]);
    assert_eq!(p.schedule.len(), 2);
    assert!(p.schedule[0] < p.schedule[1]);
    assert!(matches!(op_of(&b, p.schedule[1]), Some(QubitOp::ControlOp(..))));
}

fn cswap_circuit(b: &mut OpBuilder<f64>, n: u64) -> (Register, u64, u64, u64, u64) {
    let q = b.qubit().unwrap();
    let ra = b.register(n).unwrap();
    let rb = b.register(n).unwrap();
    let (ha, hb) = (ra.handle(), rb.handle());
    let q = b.mat(q, h()).unwrap();
    let (q, ra, rb) = b.cswap(q, ra, rb).unwrap();
    assert_eq!(ra.indices, vec![1, 2, 3]);
    assert_eq!(rb.indices, vec![4, 5, 6]);
    let q = b.mat(q, h()).unwrap();
    let (q, m) = b.measure(q).unwrap();
    (q, ha.id, hb.id, m, 0)
}

#[test]
fn cswap_circuit_plan_reaches_both_registers() {
    let mut b: OpBuilder<f64> = OpBuilder::new();
    let (q, ha, hb, m, _) = cswap_circuit(&mut b, 3);
    assert_eq!(m, 0);
    let p = plan(&b, &q);
    assert_eq!(p.leaves, vec![0, ha, hb]);
    assert_eq!(p.schedule.len(), 4);
    assert!(check_bindings(&p, &vec![ha, hb]).is_ok());
}

#[test]
fn unreachable_binding_fails() {
    let mut b: OpBuilder<f64> = OpBuilder::new();
    let qa = b.qubit().unwrap();
    let qb = b.qubit().unwrap();
    let qa = b.mat(qa, x()).unwrap();
    let p = plan(&b, &qa);
    assert_eq!(p.leaves, vec![0]);
    assert!(matches!(
        check_bindings(&p, &vec![qb.id]),
        Err(CircuitError::UnreachableBinding)
    ));
}

#[test]
fn shared_parent_scheduled_once() {
    let mut b: OpBuilder<f64> = OpBuilder::new();
    let q = b.register(2).unwrap();
    let q = b.mat(q, vec![1.0; 16]).unwrap();
    let (a, c) = b.split(q, vec![0]).unwrap();
    let a = b.mat(a, x()).unwrap();
    let c = b.mat(c, x()).unwrap();
    let r = b.merge(vec![a, c]).unwrap();
    let p = plan(&b, &r);
    assert_eq!(p.schedule.len(), 3);
    assert_eq!(p.leaves, vec![0]);
}

#[test]
fn init_from_index_bounds() {
    let mut b: OpBuilder<f64> = OpBuilder::new();
    let r = b.register(3).unwrap();
    let hd = r.handle();
    assert!(matches!(hd.make_init_from_index::<f64>(7), Ok(InitialState::Index(0, 7))));
    assert!(matches!(hd.make_init_from_index::<f64>(8), Err(CircuitError::ShapeMismatch)));
    assert!(hd.make_init_from_state(vec![0.0_f64; 8]).is_ok());
    assert!(matches!(hd.make_init_from_state(vec![0.0_f64; 4]), Err(CircuitError::ShapeMismatch)));
}

#[test]
fn matrix_length_rule() {
    assert!(matrix_len_ok(0, 1));
    assert!(matrix_len_ok(1, 4));
    assert!(matrix_len_ok(2, 16));
    assert!(!matrix_len_ok(2, 8));
    assert!(!matrix_len_ok(3, 0));
}

#[test]
fn owns_register_tells_live_views() {
    let mut b: OpBuilder<f64> = OpBuilder::new();
    let q = b.register(2).unwrap();
    assert!(b.owns_register(&q));
    assert!(!b.owns_register(&Register { indices: vec![1, 0], id: q.id }));
    assert!(!b.owns_register(&Register { indices: vec![0, 1], id: 5 }));
}

#[test]
fn schedule_follows_dependencies() {
    let mut b: OpBuilder<f64> = OpBuilder::new();
    let q = b.qubit().unwrap();
    let q = b.mat(q, x()).unwrap();
    let q = b.mat(q, h()).unwrap();
    let (q, _) = b.measure(q).unwrap();
    let p = plan(&b, &q);
    assert_eq!(p.schedule.len(), 3);
    assert!(matches!(op_of(&b, p.schedule[0]), Some(QubitOp::MatrixOp(_, m)) if m[1] == 1.0));
    assert!(matches!(op_of(&b, p.schedule[1]), Some(QubitOp::MatrixOp(_, m)) if m[3] < 0.0));
    assert!(matches!(op_of(&b, p.schedule[2]), Some(QubitOp::MeasureOp(_, 0))));
}

#[test]
fn cswap_width_mismatch_fails() {
    let mut b: OpBuilder<f64> = OpBuilder::new();
    let c = b.qubit().unwrap();
    let qa = b.register(1).unwrap();
    let qb = b.register(2).unwrap();
    assert!(matches!(b.cswap(c, qa, qb), Err(CircuitError::ShapeMismatch)));
}

#[test]
fn merge_with_fn_of_nothing_fails() {
    let r: Result<Qubit<f64>, CircuitError> = Qubit::merge_with_fn(0, &vec![], None);
    assert!(matches!(r, Err(CircuitError::EmptyWidth)));
}

#[test]
fn qubit_ids_follow_allocation() {
    let mut b: OpBuilder<f64> = OpBuilder::new();
    let r1 = b.qubit().unwrap();
    let r2 = b.register(3).unwrap();
    assert_eq!((r1.id, r1.indices.clone()), (0, vec![0]));
    assert_eq!((r2.id, r2.indices.clone()), (1, vec![1, 2, 3]));
    assert!(r1 != r2);
    assert!(r1 == Register { indices: vec![], id: 0 });
}

#[test]
fn ops_hand_back_fresh_parts_of_the_op_node() {
    let mut b: OpBuilder<f64> = OpBuilder::new();
    let c = b.qubit().unwrap();
    let qa = b.qubit().unwrap();
    let qb = b.qubit().unwrap();
    // mat without controls: op node 3, the part 4.
    let qa = b.mat(qa, x()).unwrap();
    assert_eq!(qa.id, 4);
    assert!(matches!(b.node(4).parent, Some(Parent::Shared(3))));
    // swap: op node 5, parts 6 and 7.
    let (qa, qb) = b.swap(qa, qb).unwrap();
    assert_eq!((qa.id, qb.id), (6, 7));
    assert!(matches!(b.node(7).parent, Some(Parent::Shared(5))));
    // controlled mat: op node 8, control part 9, target part 10.
    b.with_context(c);
    let qa = b.mat(qa, x()).unwrap();
    let c = b.release_context().unwrap();
    assert_eq!((c.id, qa.id), (9, 10));
    assert!(matches!(b.node(9).parent, Some(Parent::Shared(8))));
    // cswap: op node 11, parts 12, 13, 14.
    let (c, qa, qb) = b.cswap(c, qa, qb).unwrap();
    assert_eq!((c.id, qa.id, qb.id), (12, 13, 14));
    assert!(matches!(b.node(13).parent, Some(Parent::Shared(11))));
    // measure: op node 15, part 16.
    let (qb, _) = b.measure(qb).unwrap();
    assert_eq!(qb.id, 16);
    assert!(matches!(b.node(16).parent, Some(Parent::Shared(15))));
    // split: two new ids.
    let m = b.merge(vec![c, qa, qb]).unwrap();
    assert_eq!(m.id, 17);
    let (s1, s2) = b.split(m, vec![2]).unwrap();
    assert_eq!((s1.id, s2.id), (18, 19));
    assert_eq!(b.node_count(), 20);
}

#[test]
fn failed_cswap_leaves_builder_unchanged() {
    let mut b: OpBuilder<f64> = OpBuilder::new();
    let c = b.qubit().unwrap();
    let qa = b.qubit().unwrap();
    let same_as_c = Register { indices: c.indices.clone(), id: c.id };
    let before = b.node_count();
    assert!(matches!(b.cswap(c, qa, same_as_c), Err(CircuitError::IndexConflict)));
    assert_eq!(b.node_count(), before);
    assert!(b.release_context().is_none());
}
