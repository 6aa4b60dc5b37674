use std::collections::VecDeque;
use std::f32::consts::TAU;

use pixapprox::expr::{BinaryOp, Expr, Program, UnaryOp};
use pixapprox::optimize::{optimize, pop_const, top_is_one_constant, top_is_two_constants};

fn f32_binary(op: BinaryOp, a: f32, b: f32) -> f32 {
    match op {
        BinaryOp::Add => a + b,
        BinaryOp::Sub => a - b,
        BinaryOp::Mul => a * b,
        BinaryOp::Max => a.max(b),
        BinaryOp::Min => a.min(b),
    }
}

fn f32_unary(op: UnaryOp, a: f32) -> f32 {
    match op {
        UnaryOp::Cos => (a * TAU).cos(),
        UnaryOp::Sin => (a * TAU).sin(),
        UnaryOp::Atan => a.atan(),
    }
}

#[test]
pub fn optimize_add_1() {
    // 0.46546388 1 +
    let prg = Program {
        code: vec![Expr::Const(0.46546388), Expr::Const(1.0), Expr::Add],
    };

    let actual = optimize(&prg, &f32_binary, &f32_unary).code;
    let expected = vec![Expr::Const(1.46546388)];

    assert_eq!(expected, actual);
}

#[test]
pub fn top_is_one_constant_test_0() {
    let prg: VecDeque<Expr<f32>> = VecDeque::from(vec![]);
    assert_eq!(false, top_is_one_constant(&prg));
}

#[test]
pub fn top_is_one_constant_test_1() {
    let prg = VecDeque::from(vec![Expr::Const(0.46546388)]);
    assert_eq!(true, top_is_one_constant(&prg));
}

#[test]
pub fn top_is_one_constant_test_2() {
    let prg = VecDeque::from(vec![Expr::Const(0.46546388), Expr::Const(1.0)]);
    assert_eq!(true, top_is_one_constant(&prg));
}

#[test]
pub fn top_is_two_constants_test_0() {
    let prg: VecDeque<Expr<f32>> = VecDeque::from(vec![]);
    assert_eq!(false, top_is_two_constants(&prg));
}

#[test]
pub fn top_is_two_constants_test_1() {
    let prg = VecDeque::from(vec![Expr::Const(1.0)]);
    assert_eq!(false, top_is_two_constants(&prg));
}

#[test]
pub fn top_is_two_constants_test_2() {
    let prg = VecDeque::from(vec![Expr::Const(1.0), Expr::Const(2.0)]);
    assert_eq!(true, top_is_two_constants(&prg));
}

#[test]
pub fn top_is_two_constants_test_3() {
    let prg = VecDeque::from(vec![Expr::Const(1.0), Expr::Const(2.0), Expr::Const(3.0)]);
    assert_eq!(true, top_is_two_constants(&prg));
}

#[test]
fn top_is_two_constants_needs_both() {
    let prg = VecDeque::from(vec![Expr::Var(0), Expr::Const(2.0)]);
    assert_eq!(false, top_is_two_constants(&prg));
    assert_eq!(true, top_is_one_constant(&prg));
    let prg = VecDeque::from(vec![Expr::Const(2.0), Expr::Var(0)]);
    assert_eq!(false, top_is_two_constants(&prg));
    assert_eq!(false, top_is_one_constant(&prg));
}

#[test]
fn pop_const_takes_the_last_literal() {
    let mut prg = VecDeque::from(vec![Expr::Var(0), Expr::Const(2.5)]);
    assert_eq!(2.5, pop_const(&mut prg));
    assert_eq!(VecDeque::from(vec![Expr::Var(0)]), prg);
}

#[test]
fn folding_keeps_operand_order() {
    let prg = Program {
        code: vec![Expr::Const(2.0), Expr::Const(3.0), Expr::Sub],
    };
    assert_eq!(vec![Expr::Const(-1.0)], optimize(&prg, &f32_binary, &f32_unary).code);
}

#[test]
fn folding_stops_at_variables() {
    let prg = Program {
        code: vec![
            Expr::Var(0),
            Expr::Const(2.0),
            Expr::Const(3.0),
            Expr::Mul,
            Expr::Add,
            Expr::Const(0.0),
            Expr::Cos,
            Expr::Mul,
        ],
    };
    let expected = vec![
        Expr::Var(0),
        Expr::Const(6.0),
        Expr::Add,
        Expr::Const(1.0),
        Expr::Mul,
    ];
    assert_eq!(expected, optimize(&prg, &f32_binary, &f32_unary).code);
}

#[test]
fn dup_of_literal_folds_to_two_literals() {
    let prg = Program {
        code: vec![Expr::Const(3.0), Expr::Dup, Expr::Max],
    };
    assert_eq!(vec![Expr::Const(3.0)], optimize(&prg, &f32_binary, &f32_unary).code);
    let prg = Program {
        code: vec![Expr::Var(1), Expr::Dup, Expr::Min],
    };
    assert_eq!(prg.code, optimize(&prg, &f32_binary, &f32_unary).code);
}
