use pixapprox::expr::{gen_var_str, Expr, Program};
use pixapprox::state::State;

fn literal(c: f32) -> String {
    format!("{}", c)
}

#[test]
pub fn display_prg() {
    let _state = State { vars: vec![42.0] };
    let prg = Program {
        code: vec![
            Expr::Const(1.0),
            Expr::Var(0),
            Expr::Const(2.0),
            Expr::Add,
            Expr::Mul,
        ],
    };

    let result = prg.to_text(&literal);
    assert_eq!("1 x 2 + *", result);
}

#[test]
fn every_token_renders() {
    let prg = Program {
        code: vec![
            Expr::Const(0.5),
            Expr::Var(1),
            Expr::Sub,
            Expr::Max,
            Expr::Min,
            Expr::Cos,
            Expr::Sin,
            Expr::Atan,
            Expr::Drop,
            Expr::Dup,
        ],
    };
    assert_eq!("0.5 y - max min cos sin atan drop dup", prg.to_text(&literal));
}

#[test]
fn empty_program_renders_empty() {
    let prg: Program<f32> = Program { code: vec![] };
    assert_eq!("", prg.to_text(&literal));
}

#[test]
fn variable_names() {
    assert_eq!("x", gen_var_str(0));
    assert_eq!("y", gen_var_str(1));
    assert_eq!("x", Expr::<f32>::Var(0).to_text(&literal));
}
