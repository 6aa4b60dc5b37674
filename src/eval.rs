//! The stack machine: its depth discipline, its value semantics, and
//! evaluation of a program on a set of registers.

use vstd::prelude::*;

use crate::expr::{
    binary_kernel, binary_of, binary_total, unary_kernel, unary_of, unary_total, BinaryOp, Expr,
    Program, UnaryOp,
};
use crate::stack::{Stack2, STACK_CAPACITY};
use crate::state::State;

verus! {

/// Why a program cannot be evaluated.
#[derive(Debug, Clone, Copy, PartialEq, Eq, Structural)]
pub enum StackError {
    /// An instruction needs more operands than the stack holds.
    Underflow,
    /// A push would exceed the stack's capacity.
    Overflow,
    /// A variable index beyond the evaluation state.
    UnknownVariable,
    /// An instruction that the machine does not implement (`Drop`).
    Unsupported,
    /// The program ends with a number of values other than one.
    NotSingleResult,
}

/// The stack depth after one instruction, from depth `d`, on a stack of `cap` slots.
pub open spec fn depth_step_in<C>(d: nat, e: Expr<C>, nvars: nat, cap: nat) -> Result<nat, StackError> {
    match e {
        Expr::Const(_) => if d + 1 > cap {
            Err(StackError::Overflow)
        } else {
            Ok(d + 1)
        },
        Expr::Var(i) => if i >= nvars {
            Err(StackError::UnknownVariable)
        } else if d + 1 > cap {
            Err(StackError::Overflow)
        } else {
            Ok(d + 1)
        },
        Expr::Dup => if d < 1 {
            Err(StackError::Underflow)
        } else if d + 1 > cap {
            Err(StackError::Overflow)
        } else {
            Ok(d + 1)
        },
        Expr::Drop => Err(StackError::Unsupported),
        Expr::Cos | Expr::Sin | Expr::Atan => if d < 1 {
            Err(StackError::Underflow)
        } else {
            Ok(d)
        },
        _ => if d < 2 {
            Err(StackError::Underflow)
        } else {
            Ok((d - 1) as nat)
        },
    }
}

/// The stack depth after one instruction, from depth `d`.
pub open spec fn depth_step<C>(d: nat, e: Expr<C>, nvars: nat) -> Result<nat, StackError> {
    depth_step_in(d, e, nvars, STACK_CAPACITY as nat)
}

/// The stack depth after running `code` from depth `d` on a stack of `cap`
/// slots, or the first error met.
pub open spec fn depth_from<C>(d: nat, code: Seq<Expr<C>>, nvars: nat, cap: nat) -> Result<nat, StackError>
    decreases code.len(),
{
    if code.len() == 0 {
        Ok(d)
    } else {
        match depth_from(d, code.drop_last(), nvars, cap) {
            Err(e) => Err(e),
            Ok(x) => depth_step_in(x, code.last(), nvars, cap),
        }
    }
}

/// The stack depth after running `code` from an empty stack, or the first error met.
pub open spec fn depth_run<C>(code: Seq<Expr<C>>, nvars: nat) -> Result<nat, StackError>
    decreases code.len(),
{
    if code.len() == 0 {
        Ok(0)
    } else {
        match depth_run(code.drop_last(), nvars) {
            Err(e) => Err(e),
            Ok(d) => depth_step(d, code.last(), nvars),
        }
    }
}

/// What validating a whole program gives: success when exactly one value is left.
pub open spec fn validate_spec<C>(code: Seq<Expr<C>>, nvars: nat) -> Result<(), StackError> {
    match depth_run(code, nvars) {
        Err(e) => Err(e),
        Ok(d) => if d == 1 {
            Ok(())
        } else {
            Err(StackError::NotSingleResult)
        },
    }
}

/// A program that evaluates without error on `nvars` registers.
pub open spec fn well_formed<C>(code: Seq<Expr<C>>, nvars: nat) -> bool {
    validate_spec(code, nvars) is Ok
}

/// The stack after one instruction, where the depth allows it; `g` and `h` give
/// the operators' results, the left operand being the one pushed first.
pub open spec fn value_step<C>(
    s: Seq<C>,
    e: Expr<C>,
    vars: Seq<C>,
    g: spec_fn(BinaryOp, C, C) -> C,
    h: spec_fn(UnaryOp, C) -> C,
) -> Seq<C> {
    match e {
        Expr::Const(c) => s.push(c),
        Expr::Var(i) => s.push(vars[i as int]),
        Expr::Dup => s.push(s.last()),
        Expr::Drop => s.drop_last(),
        _ => match binary_of(e) {
            Some(op) => s.drop_last().drop_last().push(g(op, s[s.len() - 2], s.last())),
            None => match unary_of(e) {
                Some(op) => s.drop_last().push(h(op, s.last())),
                None => s,
            },
        },
    }
}

/// The stack after running `code` from an empty stack.
pub open spec fn value_run<C>(
    code: Seq<Expr<C>>,
    vars: Seq<C>,
    g: spec_fn(BinaryOp, C, C) -> C,
    h: spec_fn(UnaryOp, C) -> C,
) -> Seq<C>
    decreases code.len(),
{
    if code.len() == 0 {
        Seq::empty()
    } else {
        value_step(value_run(code.drop_last(), vars, g, h), code.last(), vars, g, h)
    }
}

/// The value that a well-formed program computes.
pub open spec fn eval_spec<C>(
    code: Seq<Expr<C>>,
    vars: Seq<C>,
    g: spec_fn(BinaryOp, C, C) -> C,
    h: spec_fn(UnaryOp, C) -> C,
) -> C {
    value_run(code, vars, g, h).last()
}

/// Where the depth run succeeds, the value run leaves that many values.
pub proof fn lemma_depth_is_length<C>(
    code: Seq<Expr<C>>,
    vars: Seq<C>,
    g: spec_fn(BinaryOp, C, C) -> C,
    h: spec_fn(UnaryOp, C) -> C,
)
    requires
        depth_run(code, vars.len()) is Ok,
    ensures
        value_run(code, vars, g, h).len() == depth_run(code, vars.len())->Ok_0,
    decreases code.len(),
{
    if code.len() > 0 {
        lemma_depth_is_length(code.drop_last(), vars, g, h);
    }
}

/// A failed prefix fails the whole program with the same error.
pub proof fn lemma_error_persists<C>(code: Seq<Expr<C>>, n: int, nvars: nat)
    requires
        0 <= n <= code.len(),
        depth_run(code.take(n), nvars) is Err,
    ensures
        depth_run(code, nvars) == depth_run(code.take(n), nvars),
    decreases code.len() - n,
{
    if n < code.len() {
        assert(code.take(n + 1).drop_last() =~= code.take(n));
        lemma_error_persists(code, n + 1, nvars);
    } else {
        assert(code.take(n) =~= code);
    }
}

/// A program that evaluates without error even on a stack one slot smaller.
pub open spec fn well_formed_with_room<C>(code: Seq<Expr<C>>, nvars: nat) -> bool {
    depth_from(0, code, nvars, (STACK_CAPACITY - 1) as nat) == Ok::<nat, StackError>(1)
}

/// The depth run from an empty stack is the run from depth 0 on the full stack.
pub proof fn lemma_depth_run_from<C>(code: Seq<Expr<C>>, nvars: nat)
    ensures
        depth_run(code, nvars) == depth_from(0, code, nvars, STACK_CAPACITY as nat),
    decreases code.len(),
{
    if code.len() > 0 {
        lemma_depth_run_from(code.drop_last(), nvars);
    }
}

/// Running `a + b` runs `a`, then `b` from where `a` left the stack.
pub proof fn lemma_depth_from_concat<C>(d: nat, a: Seq<Expr<C>>, b: Seq<Expr<C>>, nvars: nat, cap: nat)
    ensures
        depth_from(d, a + b, nvars, cap) == match depth_from(d, a, nvars, cap) {
            Err(e) => Err(e),
            Ok(x) => depth_from(x, b, nvars, cap),
        },
    decreases b.len(),
{
    if b.len() == 0 {
        assert(a + b =~= a);
    } else {
        lemma_depth_from_concat(d, a, b.drop_last(), nvars, cap);
        assert((a + b).drop_last() =~= a + b.drop_last());
        assert((a + b).last() == b.last());
    }
}

/// A run on a stack of `cap` slots never holds more than `cap` values.
pub proof fn lemma_depth_from_bound<C>(d: nat, code: Seq<Expr<C>>, nvars: nat, cap: nat)
    requires
        d <= cap,
        depth_from(d, code, nvars, cap) is Ok,
    ensures
        depth_from(d, code, nvars, cap)->Ok_0 <= cap,
    decreases code.len(),
{
    if code.len() > 0 {
        lemma_depth_from_bound(d, code.drop_last(), nvars, cap);
    }
}

/// A run that succeeds on a smaller stack gives the same depths on a larger one.
pub proof fn lemma_depth_from_cap<C>(d: nat, code: Seq<Expr<C>>, nvars: nat, small: nat, large: nat)
    requires
        small <= large,
        depth_from(d, code, nvars, small) is Ok,
    ensures
        depth_from(d, code, nvars, large) == depth_from(d, code, nvars, small),
    decreases code.len(),
{
    if code.len() > 0 {
        lemma_depth_from_cap(d, code.drop_last(), nvars, small, large);
    }
}

/// The smallest program that exercises `e`, with `c` for its literals.
pub open spec fn minimal_program<C>(e: Expr<C>, c: C) -> Seq<Expr<C>> {
    match e {
        Expr::Const(_) | Expr::Var(_) => seq![e],
        Expr::Dup => seq![Expr::Const(c), Expr::Dup, Expr::Add],
        Expr::Cos | Expr::Sin | Expr::Atan => seq![Expr::Const(c), e],
        _ => seq![Expr::Const(c), Expr::Const(c), e],
    }
}

/// Every instruction that the machine implements closes: the smallest program
/// that exercises it is valid, and its run leaves exactly one value.
pub proof fn arity_closure<C>(
    e: Expr<C>,
    c: C,
    vars: Seq<C>,
    g: spec_fn(BinaryOp, C, C) -> C,
    h: spec_fn(UnaryOp, C) -> C,
)
    requires
        !(e is Drop),
        e is Var ==> e->Var_0 < vars.len(),
    ensures
        validate_spec(minimal_program(e, c), vars.len()) == Ok::<(), StackError>(()),
        value_run(minimal_program(e, c), vars, g, h).len() == 1,
{
    let m = minimal_program(e, c);
    let k = Expr::Const(c);
    if m.len() == 3 {
        assert(m.drop_last() =~= seq![k, m[1]]);
        assert(m.drop_last().drop_last() =~= seq![k]);
    } else if m.len() == 2 {
        assert(m.drop_last() =~= seq![k]);
    }
    assert(seq![k].drop_last() =~= Seq::<Expr<C>>::empty());
    assert(seq![e].drop_last() =~= Seq::<Expr<C>>::empty());
    reveal_with_fuel(depth_run, 4);
    lemma_depth_is_length(m, vars, g, h);
}

/// Validates the stack discipline of `prg` on `nvars` registers without computing
/// any value: the first error met, or a missing or excess result.
pub fn validate<C: Copy>(prg: &Program<C>, nvars: usize) -> (r: Result<(), StackError>)
    ensures
        r == validate_spec(prg.code@, nvars as nat),
{
    let mut d: usize = 0;
    let mut i: usize = 0;
    while i < prg.code.len()
        invariant
            i <= prg.code.len(),
            d <= STACK_CAPACITY,
            depth_run(prg.code@.take(i as int), nvars as nat) == Ok::<nat, StackError>(d as nat),
        decreases prg.code.len() - i,
    {
        let e = prg.code[i];
        assert(prg.code@.take(i + 1).drop_last() =~= prg.code@.take(i as int));
        assert(prg.code@.take(i + 1).last() == e);
        let next: Result<usize, StackError> = match e {
            Expr::Const(_) => if d + 1 > STACK_CAPACITY {
                Err(StackError::Overflow)
            } else {
                Ok(d + 1)
            },
            Expr::Var(v) => if v >= nvars {
                Err(StackError::UnknownVariable)
            } else if d + 1 > STACK_CAPACITY {
                Err(StackError::Overflow)
            } else {
                Ok(d + 1)
            },
            Expr::Dup => if d < 1 {
                Err(StackError::Underflow)
            } else if d + 1 > STACK_CAPACITY {
                Err(StackError::Overflow)
            } else {
                Ok(d + 1)
            },
            Expr::Drop => Err(StackError::Unsupported),
            Expr::Cos | Expr::Sin | Expr::Atan => if d < 1 {
                Err(StackError::Underflow)
            } else {
                Ok(d)
            },
            _ => if d < 2 {
                Err(StackError::Underflow)
            } else {
                Ok(d - 1)
            },
        };
        match next {
            Err(err) => {
                proof {
                    lemma_error_persists(prg.code@, i + 1, nvars as nat);
                }
                return Err(err);
            },
            Ok(nd) => {
                d = nd;
            },
        }
        i = i + 1;
    }
    assert(prg.code@.take(i as int) =~= prg.code@);
    if d == 1 {
        Ok(())
    } else {
        Err(StackError::NotSingleResult)
    }
}

/// Every prefix of a well-formed program runs without error.
pub proof fn lemma_prefix_ok<C>(code: Seq<Expr<C>>, n: int, nvars: nat)
    requires
        0 <= n <= code.len(),
        well_formed(code, nvars),
    ensures
        depth_run(code.take(n), nvars) is Ok,
{
    if depth_run(code.take(n), nvars) is Err {
        lemma_error_persists(code, n, nvars);
    }
}

/// Runs `prg` on the registers of `state` and returns the single value left.
///
/// `binary(op, l, r)` computes a binary operator, `l` being the operand pushed
/// first; `unary(op, a)` computes a unary one. Trigonometric operators take
/// their operand in turns, which is for `unary` to honour.
pub fn eval<C: Copy, B: Fn(BinaryOp, C, C) -> C, U: Fn(UnaryOp, C) -> C>(
    prg: &Program<C>,
    state: &State<C>,
    binary: &B,
    unary: &U,
) -> (r: C)
    requires
        well_formed(prg.code@, state.vars@.len()),
        binary_total(*binary),
        unary_total(*unary),
    ensures
        forall|g: spec_fn(BinaryOp, C, C) -> C, h: spec_fn(UnaryOp, C) -> C|
            #[trigger] binary_kernel(*binary, g) && #[trigger] unary_kernel(*unary, h) ==> r
                == eval_spec(prg.code@, state.vars@, g, h),
{
    let vars = &state.vars;
    let ghost nvars = vars@.len();
    let mut stack: Stack2<C> = Stack2::new();
    let mut i: usize = 0;
    while i < prg.code.len()
        invariant
            i <= prg.code.len(),
            stack.wf(),
            well_formed(prg.code@, nvars),
            nvars == vars@.len(),
            binary_total(*binary),
            unary_total(*unary),
            depth_run(prg.code@.take(i as int), nvars) == Ok::<nat, StackError>(stack@.len()),
            forall|g: spec_fn(BinaryOp, C, C) -> C, h: spec_fn(UnaryOp, C) -> C|
                #[trigger] binary_kernel(*binary, g) && #[trigger] unary_kernel(*unary, h)
                    ==> stack@ == value_run(prg.code@.take(i as int), vars@, g, h),
        decreases prg.code.len() - i,
    {
        let e = prg.code[i];
        let ghost before = stack@;
        assert(prg.code@.take(i + 1).drop_last() =~= prg.code@.take(i as int));
        assert(prg.code@.take(i + 1).last() == e);
        proof {
            lemma_prefix_ok(prg.code@, i + 1, nvars);
            stack.lemma_wf_len();
        }
        match e {
            Expr::Const(c) => stack.push(c),
            Expr::Var(v) => stack.push(vars[v]),
            Expr::Dup => {
                let a = stack.pop();
                stack.push(a);
                stack.push(a);
                assert(stack@ =~= before.push(before.last()));
            },
            Expr::Cos | Expr::Sin | Expr::Atan => {
                let op = e.unary_op().unwrap();
                let a = stack.pop();
                let x = unary(op, a);
                stack.push(x);
                assert forall|g: spec_fn(BinaryOp, C, C) -> C, h: spec_fn(UnaryOp, C) -> C|
                    #[trigger] binary_kernel(*binary, g) && #[trigger] unary_kernel(*unary, h)
                        implies stack@ == value_run(prg.code@.take(i + 1), vars@, g, h) by {
                    assert(unary.ensures((op, a), x));
                }
            },
            Expr::Drop => {
                assert(false);
            },
            _ => {
                let op = e.binary_op().unwrap();
                let a = stack.pop();
                let b = stack.pop();
                let x = binary(op, b, a);
                stack.push(x);
                assert(before[before.len() - 2] == b);
                assert forall|g: spec_fn(BinaryOp, C, C) -> C, h: spec_fn(UnaryOp, C) -> C|
                    #[trigger] binary_kernel(*binary, g) && #[trigger] unary_kernel(*unary, h)
                        implies stack@ == value_run(prg.code@.take(i + 1), vars@, g, h) by {
                    assert(binary.ensures((op, b, a), x));
                }
            },
        }
        i = i + 1;
    }
    assert(prg.code@.take(i as int) =~= prg.code@);
    stack.result()
}

} // verus!
