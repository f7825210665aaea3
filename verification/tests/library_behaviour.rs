// Behaviour of the passes on concrete bodies, expressions and op kinds.

use vyre_passes::fma::{identity_elim, literal, Body, BodyBuilder, Literal, Op, OpKind, Value};
use vyre_passes::fusion::{collect_vars_in_expr, fusion_has_scalar_dependency, Expr, LoopBody, Stmt};
use vyre_passes::licm;
use vyre_passes::licm::OpKind as K;

fn lit(bits: u32) -> Value {
    Value::Literal(Literal::F32(bits))
}

fn op(kind: OpKind, operands: Vec<u32>, result: Option<u32>) -> Op {
    Op { kind, operands, result }
}

#[test]
fn numeric_zero_covers_both_signed_zeros_and_nothing_else() {
    assert!(Literal::I32(0).is_numeric_zero());
    assert!(!Literal::I32(-1).is_numeric_zero());
    assert!(Literal::F32(0x0000_0000).is_numeric_zero());
    assert!(Literal::F32(0x8000_0000).is_numeric_zero());
    assert!(!Literal::F32(0x0000_0001).is_numeric_zero()); // smallest subnormal
    assert!(!Literal::F32(0x3F80_0000).is_numeric_zero()); // 1.0
    assert!(!Literal::F32(0x7FC0_0000).is_numeric_zero()); // NaN
}

#[test]
fn finite_excludes_infinities_and_nans() {
    assert!(Literal::I32(i32::MIN).is_finite_numeric());
    assert!(Literal::F32(0x7F7F_FFFF).is_finite_numeric()); // largest finite
    assert!(Literal::F32(0x8000_0001).is_finite_numeric()); // negative subnormal
    assert!(!Literal::F32(0x7F80_0000).is_finite_numeric()); // +inf
    assert!(!Literal::F32(0xFF80_0000).is_finite_numeric()); // -inf
    assert!(!Literal::F32(0x7FC0_0000).is_finite_numeric()); // quiet NaN
    assert!(!Literal::F32(0xFF80_0001).is_finite_numeric()); // signalling NaN
}

#[test]
fn literal_builds_a_literal_value_with_index_zero() {
    let (v, idx) = literal(Literal::I32(42));
    assert_eq!(v, Value::Literal(Literal::I32(42)));
    assert_eq!(idx, 0);
}

#[test]
fn builder_hands_out_consecutive_indices() {
    let mut body = Body { ops: vec![], values: vec![] };
    assert_eq!(body.add_value(lit(0)), 0);
    assert_eq!(body.add_value(Value::Result(1)), 1);
    assert_eq!(body.add(op(OpKind::Literal, vec![0], Some(0))), 0);
    assert_eq!(body.add(op(OpKind::Store, vec![1], None)), 1);
    assert_eq!(body.add_value(lit(1)), 2);
    assert_eq!(body.ops.len(), 2);
    assert_eq!(body.values.len(), 3);
}

#[test]
fn zero_times_negative_infinity_is_not_folded() {
    let mut body = Body { ops: vec![], values: vec![] };
    body.add_value(lit(0xFF80_0000)); // -inf
    body.add_value(lit(0x8000_0000)); // -0.0
    body.add_value(lit(0x40E0_0000)); // 7.0
    body.add_value(Value::Result(3));
    body.add(op(OpKind::Fma, vec![0, 1, 2], Some(3)));
    body.add(op(OpKind::Store, vec![3], None));
    identity_elim(&mut body);
    assert_eq!(body.ops[1].operands, vec![3]);
    assert_eq!(body.ops[0].operands, vec![0, 1, 2]);
}

#[test]
fn folds_chain_through_earlier_folds() {
    // r3 = Fma(0, 42, r2) folds to r2; r4 = Fma(0, 42, r3) has addend r3,
    // which resolves to r2, so r4 folds to r2 as well.
    let mut body = Body { ops: vec![], values: vec![] };
    body.add_value(lit(0x0000_0000)); // v0: 0.0
    body.add_value(lit(0x4228_0000)); // v1: 42.0
    body.add_value(lit(0x40E0_0000)); // v2: 7.0
    body.add_value(Value::Result(3));
    body.add_value(Value::Result(4));
    body.add(op(OpKind::Fma, vec![0, 1, 2], Some(3)));
    body.add(op(OpKind::Fma, vec![0, 1, 3], Some(4)));
    body.add(op(OpKind::Store, vec![4], None));
    body.add(op(OpKind::Store, vec![3], None));
    identity_elim(&mut body);
    assert_eq!(body.ops[1].operands, vec![0, 1, 2]);
    assert_eq!(body.ops[2].operands, vec![2]);
    assert_eq!(body.ops[3].operands, vec![2]);
}

#[test]
fn folded_factor_that_resolves_to_zero_enables_a_fold() {
    // r3 = Fma(0, 42, v0) folds to v0 (a literal zero); r4 = Fma(r3, 42, v2)
    // then has a zero factor and folds to v2.
    let mut body = Body { ops: vec![], values: vec![] };
    body.add_value(Value::Literal(Literal::I32(0))); // v0
    body.add_value(Value::Literal(Literal::I32(42))); // v1
    body.add_value(Value::Literal(Literal::I32(7))); // v2
    body.add_value(Value::Result(3));
    body.add_value(Value::Result(4));
    body.add(op(OpKind::Fma, vec![0, 1, 0], Some(3)));
    body.add(op(OpKind::Fma, vec![3, 1, 2], Some(4)));
    body.add(op(OpKind::Store, vec![4], None));
    identity_elim(&mut body);
    assert_eq!(body.ops[1].operands, vec![0, 1, 2]);
    assert_eq!(body.ops[2].operands, vec![2]);
}

#[test]
fn fma_whose_addend_is_its_own_result_is_left_alone() {
    let mut body = Body { ops: vec![], values: vec![] };
    body.add_value(Value::Literal(Literal::I32(0)));
    body.add_value(Value::Literal(Literal::I32(5)));
    body.add_value(Value::Result(2));
    body.add(op(OpKind::Fma, vec![0, 1, 2], Some(2)));
    body.add(op(OpKind::Store, vec![2], None));
    identity_elim(&mut body);
    assert_eq!(body.ops[0].operands, vec![0, 1, 2]);
    assert_eq!(body.ops[1].operands, vec![2]);
}

#[test]
fn short_fma_and_other_kinds_are_not_folded() {
    let mut body = Body { ops: vec![], values: vec![] };
    body.add_value(Value::Literal(Literal::I32(0)));
    body.add_value(Value::Literal(Literal::I32(5)));
    body.add_value(Value::Result(2));
    body.add_value(Value::Result(3));
    body.add(op(OpKind::Fma, vec![0, 1], Some(2)));
    body.add(op(OpKind::Store, vec![0, 1, 2], Some(3)));
    body.add(op(OpKind::Store, vec![2, 3], None));
    identity_elim(&mut body);
    assert_eq!(body.ops[2].operands, vec![2, 3]);
    assert_eq!(body.ops[0].result, Some(2));
    assert_eq!(body.ops[1].kind, OpKind::Store);
    assert_eq!(body.values.len(), 4);
    assert_eq!(body.values[2], Value::Result(2));
}

#[test]
fn zero_times_non_literal_is_not_folded() {
    let mut body = Body { ops: vec![], values: vec![] };
    body.add_value(lit(0x0000_0000)); // v0: 0.0
    body.add_value(Value::Result(1)); // v1: unknown
    body.add_value(lit(0x40E0_0000)); // v2: 7.0
    body.add_value(Value::Result(3));
    body.add(op(OpKind::Fma, vec![0, 1, 2], Some(3)));
    body.add(op(OpKind::Store, vec![3], None));
    identity_elim(&mut body);
    assert_eq!(body.ops[1].operands, vec![3]);
}

#[test]
fn collect_vars_reads_every_atomic_operand_once() {
    let e = Expr::Atomic {
        index: Box::new(Expr::Var("p")),
        expected: Box::new(Expr::Add(Box::new(Expr::Var("e")), Box::new(Expr::Var("p")))),
        value: Box::new(Expr::LitU32(3)),
    };
    let mut out: Vec<&'static str> = Vec::new();
    collect_vars_in_expr(&e, &mut out);
    assert_eq!(out, vec!["p", "e"]);
    collect_vars_in_expr(&Expr::Var("e"), &mut out);
    assert_eq!(out, vec!["p", "e"]);
    collect_vars_in_expr(&Expr::Var("z"), &mut out);
    assert_eq!(out, vec!["p", "e", "z"]);
}

#[test]
fn dependency_survives_extra_statements() {
    let a = LoopBody {
        stmts: vec![Stmt::Assign("q", Expr::LitU32(0)), Stmt::Assign("a", Expr::LitU32(1))],
    };
    let b = LoopBody {
        stmts: vec![
            Stmt::Assign("y", Expr::LitU32(9)),
            Stmt::Assign(
                "z",
                Expr::Atomic {
                    index: Box::new(Expr::LitU32(0)),
                    expected: Box::new(Expr::Var("a")),
                    value: Box::new(Expr::LitU32(1)),
                },
            ),
        ],
    };
    assert!(fusion_has_scalar_dependency(&a, &b));
    assert!(!fusion_has_scalar_dependency(&b, &a));
    let empty = LoopBody { stmts: vec![] };
    assert!(!fusion_has_scalar_dependency(&empty, &b));
    assert!(!fusion_has_scalar_dependency(&a, &empty));
    let b2 = b.clone();
    assert_eq!(b2.stmts.len(), 2);
    assert!(fusion_has_scalar_dependency(&a, &b2));
}

#[test]
fn purity_of_every_kind() {
    let kinds = [
        (K::Arithmetic, true),
        (K::SubgroupReduce, false),
        (K::SubgroupBallot, false),
        (K::SubgroupShuffle, false),
        (K::SubgroupBroadcast, false),
        (K::SubgroupLocalId, true),
        (K::Store, false),
    ];
    for (k, expected) in kinds {
        assert_eq!(licm::is_pure(&k), expected);
    }
}

#[test]
fn non_folding_fma_may_name_a_result_outside_the_values() {
    let mut body = Body { ops: vec![], values: vec![] };
    body.add_value(Value::Result(0));
    body.add(op(OpKind::Fma, vec![0, 0, 0], Some(7)));
    identity_elim(&mut body);
    assert_eq!(body.ops[0].operands, vec![0, 0, 0]);
    assert_eq!(body.ops[0].result, Some(7));
}

#[test]
fn second_run_changes_nothing() {
    let mut body = Body { ops: vec![], values: vec![] };
    body.add_value(Value::Literal(Literal::I32(0))); // v0
    body.add_value(lit(0x4228_0000)); // v1: 42.0
    body.add_value(lit(0x40E0_0000)); // v2: 7.0
    body.add_value(Value::Result(3));
    body.add_value(Value::Result(4));
    body.add_value(Value::Result(5));
    body.add(op(OpKind::Fma, vec![0, 1, 0], Some(3)));
    body.add(op(OpKind::Fma, vec![3, 1, 2], Some(4)));
    body.add(op(OpKind::Fma, vec![1, 1, 3], Some(5)));
    body.add(op(OpKind::Store, vec![3, 4, 5], None));
    identity_elim(&mut body);
    let once: Vec<Vec<u32>> = body.ops.iter().map(|o| o.operands.clone()).collect();
    assert_eq!(once, vec![vec![0, 1, 0], vec![0, 1, 2], vec![1, 1, 0], vec![0, 2, 5]]);
    identity_elim(&mut body);
    let twice: Vec<Vec<u32>> = body.ops.iter().map(|o| o.operands.clone()).collect();
    assert_eq!(once, twice);
}
