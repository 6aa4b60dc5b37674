//! Instructions, programs, and their postfix text.

use vstd::prelude::*;
use vstd::string::StringExecFns;

verus! {

/// A binary operator: pops two values, pushes one.
#[derive(Debug, Clone, Copy, PartialEq, Eq, Structural)]
pub enum BinaryOp {
    Add,
    Sub,
    Mul,
    Max,
    Min,
}

/// A unary operator: pops one value, pushes one.
#[derive(Debug, Clone, Copy, PartialEq, Eq, Structural)]
pub enum UnaryOp {
    Cos,
    Sin,
    Atan,
}

/// One instruction of a stack program; `C` is the type of the literals.
#[derive(Debug, Clone, Copy, PartialEq)]
pub enum Expr<C> {
    // Values
    Const(C),
    Var(usize),
    // Binary operators
    Add,
    Sub,
    Mul,
    Max,
    Min,
    // Unary operators
    Cos,
    Sin,
    Atan,
    // Special operators
    /// Converts a binary operator into a unary one by dropping the top value.
    Drop,
    /// Converts a unary operator into a binary one by duplicating the top value.
    Dup,
}

/// A program: the instructions in execution order.
#[derive(Debug, Clone)]
pub struct Program<C> {
    pub code: Vec<Expr<C>>,
}

/// The binary operator that an instruction applies, if it is one.
pub open spec fn binary_of<C>(e: Expr<C>) -> Option<BinaryOp> {
    match e {
        Expr::Add => Some(BinaryOp::Add),
        Expr::Sub => Some(BinaryOp::Sub),
        Expr::Mul => Some(BinaryOp::Mul),
        Expr::Max => Some(BinaryOp::Max),
        Expr::Min => Some(BinaryOp::Min),
        _ => None,
    }
}

/// The unary operator that an instruction applies, if it is one.
pub open spec fn unary_of<C>(e: Expr<C>) -> Option<UnaryOp> {
    match e {
        Expr::Cos => Some(UnaryOp::Cos),
        Expr::Sin => Some(UnaryOp::Sin),
        Expr::Atan => Some(UnaryOp::Atan),
        _ => None,
    }
}

/// `f` computes the binary operators as the spec function `g` does.
pub open spec fn binary_kernel<C, F: Fn(BinaryOp, C, C) -> C>(
    f: F,
    g: spec_fn(BinaryOp, C, C) -> C,
) -> bool {
    forall|op: BinaryOp, a: C, b: C, r: C| #[trigger] f.ensures((op, a, b), r) ==> r == g(op, a, b)
}

/// `f` computes the unary operators as the spec function `g` does.
pub open spec fn unary_kernel<C, F: Fn(UnaryOp, C) -> C>(f: F, g: spec_fn(UnaryOp, C) -> C) -> bool {
    forall|op: UnaryOp, a: C, r: C| #[trigger] f.ensures((op, a), r) ==> r == g(op, a)
}

/// `f` may be called on every operator and operands.
pub open spec fn binary_total<C, F: Fn(BinaryOp, C, C) -> C>(f: F) -> bool {
    forall|op: BinaryOp, a: C, b: C| #[trigger] f.requires((op, a, b))
}

/// `f` may be called on every operator and operand.
pub open spec fn unary_total<C, F: Fn(UnaryOp, C) -> C>(f: F) -> bool {
    forall|op: UnaryOp, a: C| #[trigger] f.requires((op, a))
}

/// The literal of an instruction, if it is one.
pub open spec fn const_of<C>(e: Expr<C>) -> Option<C> {
    match e {
        Expr::Const(c) => Some(c),
        _ => None,
    }
}

impl<C: Copy> Expr<C> {
    /// The literal of this instruction, if it is one.
    pub fn constant(&self) -> (r: Option<C>)
        ensures
            r == const_of(*self),
    {
        match self {
            Expr::Const(c) => Some(*c),
            _ => None,
        }
    }

    /// The binary operator of this instruction, if it is one.
    pub fn binary_op(&self) -> (r: Option<BinaryOp>)
        ensures
            r == binary_of(*self),
    {
        match self {
            Expr::Add => Some(BinaryOp::Add),
            Expr::Sub => Some(BinaryOp::Sub),
            Expr::Mul => Some(BinaryOp::Mul),
            Expr::Max => Some(BinaryOp::Max),
            Expr::Min => Some(BinaryOp::Min),
            _ => None,
        }
    }

    /// The unary operator of this instruction, if it is one.
    pub fn unary_op(&self) -> (r: Option<UnaryOp>)
        ensures
            r == unary_of(*self),
    {
        match self {
            Expr::Cos => Some(UnaryOp::Cos),
            Expr::Sin => Some(UnaryOp::Sin),
            Expr::Atan => Some(UnaryOp::Atan),
            _ => None,
        }
    }
}

/// The token of register `n` (0 is x, 1 is y).
pub open spec fn var_name(n: usize) -> Seq<char> {
    if n == 0 {
        seq!['x']
    } else {
        seq!['y']
    }
}

/// The token of one instruction; `ct` gives the text of a literal.
pub open spec fn expr_text<C>(e: Expr<C>, ct: spec_fn(C) -> Seq<char>) -> Seq<char> {
    match e {
        Expr::Const(c) => ct(c),
        Expr::Var(i) => var_name(i),
        Expr::Add => seq!['+'],
        Expr::Sub => seq!['-'],
        Expr::Mul => seq!['*'],
        Expr::Max => seq!['m', 'a', 'x'],
        Expr::Min => seq!['m', 'i', 'n'],
        Expr::Cos => seq!['c', 'o', 's'],
        Expr::Sin => seq!['s', 'i', 'n'],
        Expr::Atan => seq!['a', 't', 'a', 'n'],
        Expr::Drop => seq!['d', 'r', 'o', 'p'],
        Expr::Dup => seq!['d', 'u', 'p'],
    }
}

/// The postfix text of a program: the tokens in order, separated by one space.
pub open spec fn program_text<C>(code: Seq<Expr<C>>, ct: spec_fn(C) -> Seq<char>) -> Seq<char>
    decreases code.len(),
{
    if code.len() == 0 {
        Seq::empty()
    } else if code.len() == 1 {
        expr_text(code[0], ct)
    } else {
        program_text(code.drop_last(), ct) + seq![' '] + expr_text(code.last(), ct)
    }
}

/// Every register that the program names has a token.
pub open spec fn has_var_names<C>(code: Seq<Expr<C>>) -> bool {
    forall|i: int| 0 <= i < code.len() && (#[trigger] code[i]) is Var ==> code[i]->Var_0 < 2
}

/// `f` writes literals as the spec function `g` does.
pub open spec fn text_kernel<C, F: Fn(C) -> String>(f: F, g: spec_fn(C) -> Seq<char>) -> bool {
    forall|c: C, s: String| #[trigger] f.ensures((c,), s) ==> s@ == g(c)
}

/// Converts 0 to "x" and 1 to "y".
pub fn gen_var_str(n: usize) -> (r: &'static str)
    requires
        n < 2,
    ensures
        r@ == var_name(n),
{
    if n == 0 {
        proof {
            reveal_strlit("x");
        }
        "x"
    } else {
        proof {
            reveal_strlit("y");
        }
        "y"
    }
}

/// Text of a string literal, with its contents known to the proof.
fn text_of(s: &'static str) -> (r: String)
    ensures
        r@ == s@,
{
    String::from_str(s)
}

impl<C: Copy> Expr<C> {
    /// The token of this instruction; `constant_text` writes a literal.
    pub fn to_text<F: Fn(C) -> String>(&self, constant_text: &F) -> (r: String)
        requires
            forall|c: C| constant_text.requires((c,)),
            *self is Var ==> self->Var_0 < 2,
        ensures
            forall|g: spec_fn(C) -> Seq<char>| #[trigger] text_kernel(*constant_text, g)
                ==> r@ == expr_text(*self, g),
    {
        match *self {
            Expr::Const(c) => constant_text(c),
            Expr::Var(i) => text_of(gen_var_str(i)),
            Expr::Add => {
                proof { reveal_strlit("+"); }
                text_of("+")
            },
            Expr::Sub => {
                proof { reveal_strlit("-"); }
                text_of("-")
            },
            Expr::Mul => {
                proof { reveal_strlit("*"); }
                text_of("*")
            },
            Expr::Max => {
                proof { reveal_strlit("max"); }
                text_of("max")
            },
            Expr::Min => {
                proof { reveal_strlit("min"); }
                text_of("min")
            },
            Expr::Cos => {
                proof { reveal_strlit("cos"); }
                text_of("cos")
            },
            Expr::Sin => {
                proof { reveal_strlit("sin"); }
                text_of("sin")
            },
            Expr::Atan => {
                proof { reveal_strlit("atan"); }
                text_of("atan")
            },
            Expr::Drop => {
                proof { reveal_strlit("drop"); }
                text_of("drop")
            },
            Expr::Dup => {
                proof { reveal_strlit("dup"); }
                text_of("dup")
            },
        }
    }
}

impl<C: Copy> Program<C> {
    /// The postfix text of the program; `constant_text` writes a literal.
    pub fn to_text<F: Fn(C) -> String>(&self, constant_text: &F) -> (r: String)
        requires
            forall|c: C| constant_text.requires((c,)),
            has_var_names(self.code@),
        ensures
            forall|g: spec_fn(C) -> Seq<char>| #[trigger] text_kernel(*constant_text, g)
                ==> r@ == program_text(self.code@, g),
    {
        let mut out = String::new();
        let mut i: usize = 0;
        while i < self.code.len()
            invariant
                i <= self.code.len(),
                forall|c: C| constant_text.requires((c,)),
                has_var_names(self.code@),
                forall|g: spec_fn(C) -> Seq<char>| #[trigger] text_kernel(*constant_text, g)
                    ==> out@ == program_text(self.code@.take(i as int), g),
            decreases self.code.len() - i,
        {
            let e = self.code[i];
            assert(self.code@.take(i + 1).drop_last() =~= self.code@.take(i as int));
            assert(self.code@.take(i + 1).last() == e);
            assert(self.code@[i as int] == e);
            let tok = e.to_text(constant_text);
            let ghost prev = out@;
            if i > 0 {
                out.append(" ");
            }
            out.append(tok.as_str());
            proof {
                reveal_strlit(" ");
                assert forall|g: spec_fn(C) -> Seq<char>| #[trigger] text_kernel(*constant_text, g)
                    implies out@ == program_text(self.code@.take(i + 1), g) by {
                    if i == 0 {
                        assert(prev == Seq::<char>::empty());
                        assert(out@ =~= tok@);
                    }
                }
            }
            i = i + 1;
        }
        assert(self.code@.take(i as int) =~= self.code@);
        out
    }
}

} // verus!
