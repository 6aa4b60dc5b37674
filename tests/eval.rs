use std::f32::consts::TAU;

use pixapprox::eval::{eval, validate, StackError};
use pixapprox::expr::{BinaryOp, Expr, Program, UnaryOp};
use pixapprox::state::State;

fn f32_binary(op: BinaryOp, a: f32, b: f32) -> f32 {
    match op {
        BinaryOp::Add => a + b,
        BinaryOp::Sub => a - b,
        BinaryOp::Mul => a * b,
        BinaryOp::Max => a.max(b),
        BinaryOp::Min => a.min(b),
    }
}

fn f32_unary(op: UnaryOp, a: f32) -> f32 {
    match op {
        UnaryOp::Cos => (a * TAU).cos(),
        UnaryOp::Sin => (a * TAU).sin(),
        UnaryOp::Atan => a.atan(),
    }
}

fn run(prg: &Program<f32>, state: &State<f32>) -> f32 {
    assert_eq!(Ok(()), validate(prg, state.vars.len()));
    eval(prg, state, &f32_binary, &f32_unary)
}

#[test]
pub fn add_consts() {
    let state = State { vars: vec![] };
    let prg = Program {
        code: vec![Expr::Const(2.0), Expr::Const(3.0), Expr::Add],
    };

    let result = run(&prg, &state);
    assert_eq!(5.0, result);
}

#[test]
pub fn add_vars() {
    let state = State {
        vars: vec![2.0, 3.0],
    };
    let prg = Program {
        code: vec![Expr::Var(0), Expr::Var(1), Expr::Add],
    };

    let result = run(&prg, &state);
    assert_eq!(5.0, result);
}

#[test]
pub fn sub_consts() {
    let state = State { vars: vec![] };
    let prg = Program {
        code: vec![Expr::Const(2.0), Expr::Const(3.0), Expr::Sub],
    };

    let result = run(&prg, &state);
    assert_eq!(-1.0, result);
}

#[test]
pub fn sub_vars() {
    let state = State {
        vars: vec![2.0, 3.0],
    };
    let prg = Program {
        code: vec![Expr::Var(0), Expr::Var(1), Expr::Sub],
    };

    let result = run(&prg, &state);
    assert_eq!(-1.0, result);
}

#[test]
pub fn mul_consts() {
    let state = State { vars: vec![] };
    let prg = Program {
        code: vec![Expr::Const(2.0), Expr::Const(3.0), Expr::Mul],
    };

    let result = run(&prg, &state);
    assert_eq!(6.0, result);
}

#[test]
pub fn mul_vars() {
    let state = State {
        vars: vec![2.0, 3.0],
    };
    let prg = Program {
        code: vec![Expr::Var(0), Expr::Var(1), Expr::Mul],
    };

    let result = run(&prg, &state);
    assert_eq!(6.0, result);
}

#[test]
pub fn cos_const() {
    let state = State { vars: vec![] };
    let prg = Program {
        code: vec![Expr::Const(0.0), Expr::Cos],
    };

    let result = run(&prg, &state);
    assert_eq!(1.0, result);
}

#[test]
pub fn cos_var() {
    let state = State { vars: vec![0.0] };
    let prg = Program {
        code: vec![Expr::Var(0), Expr::Cos],
    };

    let result = run(&prg, &state);
    assert_eq!(1.0, result);
}

#[test]
pub fn atan_const() {
    let state = State { vars: vec![] };
    let prg = Program {
        code: vec![Expr::Const(0.0), Expr::Atan],
    };

    let result = run(&prg, &state);
    assert_eq!(0.0, result);
}

#[test]
pub fn atan_var() {
    let state = State { vars: vec![0.0] };
    let prg = Program {
        code: vec![Expr::Var(0), Expr::Atan],
    };

    let result = run(&prg, &state);
    assert_eq!(0.0, result);
}

#[test]
fn underflow_is_detected() {
    let prg: Program<f32> = Program {
        code: vec![Expr::Const(1.0), Expr::Add],
    };
    assert_eq!(Err(StackError::Underflow), validate(&prg, 0));
}

#[test]
fn excess_values_are_detected() {
    let prg: Program<f32> = Program {
        code: vec![
            Expr::Const(1.0),
            Expr::Const(1.0),
            Expr::Const(1.0),
            Expr::Add,
        ],
    };
    assert_eq!(Err(StackError::NotSingleResult), validate(&prg, 0));
}

#[test]
fn empty_program_has_no_result() {
    let prg: Program<f32> = Program { code: vec![] };
    assert_eq!(Err(StackError::NotSingleResult), validate(&prg, 2));
}

#[test]
fn unknown_variable_is_detected() {
    let prg: Program<f32> = Program {
        code: vec![Expr::Var(2)],
    };
    assert_eq!(Err(StackError::UnknownVariable), validate(&prg, 2));
    assert_eq!(Ok(()), validate(&prg, 3));
}

#[test]
fn drop_is_unsupported() {
    let prg: Program<f32> = Program {
        code: vec![Expr::Const(1.0), Expr::Const(2.0), Expr::Drop],
    };
    assert_eq!(Err(StackError::Unsupported), validate(&prg, 0));
}

#[test]
fn overflow_at_capacity() {
    let mut code = vec![Expr::Const(1.0f32); 64];
    let prg = Program { code: code.clone() };
    assert_eq!(Err(StackError::NotSingleResult), validate(&prg, 0));
    code.push(Expr::Const(1.0));
    let prg = Program { code };
    assert_eq!(Err(StackError::Overflow), validate(&prg, 0));
}

#[test]
fn full_stack_folds_back_to_one() {
    let mut code = vec![Expr::Const(1.0f32); 64];
    for _ in 0..63 {
        code.push(Expr::Add);
    }
    let prg = Program { code };
    let state = State { vars: vec![] };
    assert_eq!(64.0, run(&prg, &state));
}

#[test]
fn every_instruction_class_leaves_one_value() {
    let state = State { vars: vec![0.25, 0.5] };
    let minimal: Vec<Vec<Expr<f32>>> = vec![
        vec![Expr::Const(0.5)],
        vec![Expr::Var(1)],
        vec![Expr::Const(0.5), Expr::Const(0.5), Expr::Add],
        vec![Expr::Const(0.5), Expr::Const(0.5), Expr::Sub],
        vec![Expr::Const(0.5), Expr::Const(0.5), Expr::Mul],
        vec![Expr::Const(0.5), Expr::Const(0.5), Expr::Max],
        vec![Expr::Const(0.5), Expr::Const(0.5), Expr::Min],
        vec![Expr::Const(0.5), Expr::Cos],
        vec![Expr::Const(0.5), Expr::Sin],
        vec![Expr::Const(0.5), Expr::Atan],
        vec![Expr::Const(0.5), Expr::Dup, Expr::Add],
    ];
    for code in minimal {
        let prg = Program { code };
        assert_eq!(Ok(()), validate(&prg, 2));
        let _ = run(&prg, &state);
    }
}

#[test]
fn operand_order_and_extra_ops() {
    let state = State { vars: vec![2.0, 3.0] };
    let max = Program {
        code: vec![Expr::Var(0), Expr::Var(1), Expr::Max],
    };
    let min = Program {
        code: vec![Expr::Var(0), Expr::Var(1), Expr::Min],
    };
    let dup = Program {
        code: vec![Expr::Var(1), Expr::Dup, Expr::Mul],
    };
    let sin = Program {
        code: vec![Expr::Const(0.25), Expr::Sin],
    };
    assert_eq!(3.0, run(&max, &state));
    assert_eq!(2.0, run(&min, &state));
    assert_eq!(9.0, run(&dup, &state));
    assert!((run(&sin, &state) - 1.0).abs() < 1e-6);
}
