//! Constant folding, and why it keeps what a program computes.

use std::collections::VecDeque;
use vstd::prelude::*;

use crate::eval::{
    depth_from, depth_step_in, eval_spec, lemma_depth_run_from, value_run, value_step, well_formed,
};
use crate::stack::STACK_CAPACITY;
use crate::expr::{
    binary_kernel, binary_of, binary_total, unary_kernel, unary_of, unary_total,
    BinaryOp, Expr, Program, UnaryOp,
};

verus! {

/// The last instruction is a literal.
pub open spec fn top_one<C>(out: Seq<Expr<C>>) -> bool {
    out.len() >= 1 && out.last() is Const
}

/// The last two instructions are literals.
pub open spec fn top_two<C>(out: Seq<Expr<C>>) -> bool {
    out.len() >= 2 && out.last() is Const && out[out.len() - 2] is Const
}

/// The output after one more instruction: an operator whose operands are all
/// literals is replaced, with them, by the literal of its result.
pub open spec fn fold_step<C>(
    out: Seq<Expr<C>>,
    e: Expr<C>,
    g: spec_fn(BinaryOp, C, C) -> C,
    h: spec_fn(UnaryOp, C) -> C,
) -> Seq<Expr<C>> {
    match e {
        Expr::Dup => if top_one(out) {
            out.push(out.last())
        } else {
            out.push(e)
        },
        _ => match binary_of(e) {
            Some(op) => if top_two(out) {
                out.drop_last().drop_last().push(
                    Expr::Const(g(op, out[out.len() - 2]->Const_0, out.last()->Const_0)),
                )
            } else {
                out.push(e)
            },
            None => match unary_of(e) {
                Some(op) => if top_one(out) {
                    out.drop_last().push(Expr::Const(h(op, out.last()->Const_0)))
                } else {
                    out.push(e)
                },
                None => out.push(e),
            },
        },
    }
}

/// The folded form of `code`.
pub open spec fn optimize_spec<C>(
    code: Seq<Expr<C>>,
    g: spec_fn(BinaryOp, C, C) -> C,
    h: spec_fn(UnaryOp, C) -> C,
) -> Seq<Expr<C>>
    decreases code.len(),
{
    if code.len() == 0 {
        Seq::empty()
    } else {
        fold_step(optimize_spec(code.drop_last(), g, h), code.last(), g, h)
    }
}

/// The program holds no `Drop`, which folding does not handle.
pub open spec fn drop_free<C>(code: Seq<Expr<C>>) -> bool {
    forall|i: int| 0 <= i < code.len() ==> !(#[trigger] code[i] is Drop)
}

/// Whether the last two entries of `prg` are literals.
pub fn top_is_two_constants<C: Copy>(prg: &VecDeque<Expr<C>>) -> (r: bool)
    ensures
        r == top_two(prg@),
{
    let len = prg.len();
    if len < 2 {
        return false;
    }
    match prg[len - 1] {
        Expr::Const(_) => {},
        _ => {
            return false;
        },
    }
    match prg[len - 2] {
        Expr::Const(_) => true,
        _ => false,
    }
}

/// Whether the last entry of `prg` is a literal.
pub fn top_is_one_constant<C: Copy>(prg: &VecDeque<Expr<C>>) -> (r: bool)
    ensures
        r == top_one(prg@),
{
    let len = prg.len();
    if len < 1 {
        return false;
    }
    match prg[len - 1] {
        Expr::Const(_) => true,
        _ => false,
    }
}

/// Removes the literal at the end of `prg` and returns its value.
pub fn pop_const<C: Copy>(prg: &mut VecDeque<Expr<C>>) -> (r: C)
    requires
        top_one(old(prg)@),
    ensures
        r == old(prg)@.last()->Const_0,
        final(prg)@ == old(prg)@.drop_last(),
{
    let e = prg.pop_back().unwrap();
    e.constant().unwrap()
}

/// Folds the constant sub-expressions of `prg`, left to right.
///
/// `binary` and `unary` compute the folded operators, as for evaluation.
pub fn optimize<C: Copy, B: Fn(BinaryOp, C, C) -> C, U: Fn(UnaryOp, C) -> C>(
    prg: &Program<C>,
    binary: &B,
    unary: &U,
) -> (r: Program<C>)
    requires
        drop_free(prg.code@),
        binary_total(*binary),
        unary_total(*unary),
    ensures
        forall|g: spec_fn(BinaryOp, C, C) -> C, h: spec_fn(UnaryOp, C) -> C|
            #[trigger] binary_kernel(*binary, g) && #[trigger] unary_kernel(*unary, h) ==> r.code@
                == optimize_spec(prg.code@, g, h),
{
    let mut new_code: VecDeque<Expr<C>> = VecDeque::new();
    let mut i: usize = 0;
    while i < prg.code.len()
        invariant
            i <= prg.code.len(),
            drop_free(prg.code@),
            binary_total(*binary),
            unary_total(*unary),
            forall|g: spec_fn(BinaryOp, C, C) -> C, h: spec_fn(UnaryOp, C) -> C|
                #[trigger] binary_kernel(*binary, g) && #[trigger] unary_kernel(*unary, h)
                    ==> new_code@ == optimize_spec(prg.code@.take(i as int), g, h),
        decreases prg.code.len() - i,
    {
        let e = prg.code[i];
        let ghost before = new_code@;
        assert(prg.code@.take(i + 1).drop_last() =~= prg.code@.take(i as int));
        assert(prg.code@.take(i + 1).last() == e);
        assert(prg.code@[i as int] == e);
        match e {
            Expr::Drop => {
                assert(false);
            },
            Expr::Dup => {
                if top_is_one_constant(&new_code) {
                    let a = pop_const(&mut new_code);
                    new_code.push_back(Expr::Const(a));
                    new_code.push_back(Expr::Const(a));
                    assert(new_code@ =~= before.push(before.last()));
                } else {
                    new_code.push_back(e);
                }
            },
            Expr::Cos | Expr::Sin | Expr::Atan => {
                if top_is_one_constant(&new_code) {
                    let op = e.unary_op().unwrap();
                    let a = pop_const(&mut new_code);
                    let x = unary(op, a);
                    new_code.push_back(Expr::Const(x));
                    assert forall|g: spec_fn(BinaryOp, C, C) -> C, h: spec_fn(UnaryOp, C) -> C|
                        #[trigger] binary_kernel(*binary, g) && #[trigger] unary_kernel(*unary, h)
                            implies new_code@ == optimize_spec(prg.code@.take(i + 1), g, h) by {
                        assert(unary.ensures((op, a), x));
                    }
                } else {
                    new_code.push_back(e);
                }
            },
            Expr::Add | Expr::Sub | Expr::Mul | Expr::Max | Expr::Min => {
                if top_is_two_constants(&new_code) {
                    let op = e.binary_op().unwrap();
                    let a = pop_const(&mut new_code);
                    let b = pop_const(&mut new_code);
                    let x = binary(op, b, a);
                    new_code.push_back(Expr::Const(x));
                    assert forall|g: spec_fn(BinaryOp, C, C) -> C, h: spec_fn(UnaryOp, C) -> C|
                        #[trigger] binary_kernel(*binary, g) && #[trigger] unary_kernel(*unary, h)
                            implies new_code@ == optimize_spec(prg.code@.take(i + 1), g, h) by {
                        assert(binary.ensures((op, b, a), x));
                    }
                } else {
                    new_code.push_back(e);
                }
            },
            _ => {
                new_code.push_back(e);
            },
        }
        i = i + 1;
    }
    assert(prg.code@.take(i as int) =~= prg.code@);
    let mut code: Vec<Expr<C>> = Vec::with_capacity(new_code.len());
    let mut j: usize = 0;
    while j < new_code.len()
        invariant
            j <= new_code.len(),
            code@ == new_code@.take(j as int),
        decreases new_code.len() - j,
    {
        code.push(new_code[j]);
        j = j + 1;
        assert(code@ =~= new_code@.take(j as int));
    }
    assert(new_code@.take(j as int) =~= new_code@);
    Program { code }
}

/// Running one more instruction extends the run by one step.
proof fn lemma_value_run_push<C>(
    s: Seq<Expr<C>>,
    e: Expr<C>,
    vars: Seq<C>,
    g: spec_fn(BinaryOp, C, C) -> C,
    h: spec_fn(UnaryOp, C) -> C,
)
    ensures
        value_run(s.push(e), vars, g, h) == value_step(value_run(s, vars, g, h), e, vars, g, h),
{
    assert(s.push(e).drop_last() =~= s);
}

/// The depth run of one more instruction extends the run by one step.
proof fn lemma_depth_from_push<C>(s: Seq<Expr<C>>, e: Expr<C>, nvars: nat, cap: nat)
    ensures
        depth_from(0, s.push(e), nvars, cap) == match depth_from(0, s, nvars, cap) {
            Err(err) => Err(err),
            Ok(d) => depth_step_in(d, e, nvars, cap),
        },
{
    assert(s.push(e).drop_last() =~= s);
}

/// Folding keeps what a program computes: the folded program leaves the same
/// stack as the program itself.
pub proof fn lemma_optimize_keeps_values<C>(
    code: Seq<Expr<C>>,
    vars: Seq<C>,
    g: spec_fn(BinaryOp, C, C) -> C,
    h: spec_fn(UnaryOp, C) -> C,
)
    requires
        drop_free(code),
    ensures
        value_run(optimize_spec(code, g, h), vars, g, h) == value_run(code, vars, g, h),
    decreases code.len(),
{
    if code.len() > 0 {
        let p = code.drop_last();
        let e = code.last();
        assert(drop_free(p)) by {
            assert forall|i: int| 0 <= i < p.len() implies !(#[trigger] p[i] is Drop) by {
                assert(p[i] == code[i]);
            }
        }
        lemma_optimize_keeps_values(p, vars, g, h);
        let o = optimize_spec(p, g, h);
        let v = value_run(o, vars, g, h);
        lemma_value_run_push(p, e, vars, g, h);
        lemma_value_run_push(o, e, vars, g, h);
        assert(code =~= p.push(e));
        if e is Dup && top_one(o) {
            lemma_value_run_push(o.drop_last(), o.last(), vars, g, h);
            assert(o.drop_last().push(o.last()) =~= o);
            lemma_value_run_push(o, o.last(), vars, g, h);
        } else if binary_of(e) is Some && top_two(o) {
            let q = o.drop_last().drop_last();
            let op = binary_of(e)->Some_0;
            let a = o[o.len() - 2]->Const_0;
            let b = o.last()->Const_0;
            assert(o.drop_last() =~= q.push(o[o.len() - 2]));
            assert(o =~= o.drop_last().push(o.last()));
            lemma_value_run_push(q, o[o.len() - 2], vars, g, h);
            lemma_value_run_push(o.drop_last(), o.last(), vars, g, h);
            lemma_value_run_push(q, Expr::Const(g(op, a, b)), vars, g, h);
            let vq = value_run(q, vars, g, h);
            assert(v == vq.push(a).push(b));
            assert(v.drop_last().drop_last() =~= vq);
        } else if unary_of(e) is Some && top_one(o) {
            let q = o.drop_last();
            let op = unary_of(e)->Some_0;
            assert(o =~= q.push(o.last()));
            lemma_value_run_push(q, o.last(), vars, g, h);
            lemma_value_run_push(q, Expr::Const(h(op, o.last()->Const_0)), vars, g, h);
            assert(v.drop_last() =~= value_run(q, vars, g, h));
        }
    }
}

/// Folding never needs a larger stack: on any stack of `cap` slots on which a
/// program runs without error, the folded program runs without error too and
/// ends at the same depth. So its peak depth is at most the program's.
pub proof fn optimize_within_stack<C>(
    code: Seq<Expr<C>>,
    nvars: nat,
    cap: nat,
    g: spec_fn(BinaryOp, C, C) -> C,
    h: spec_fn(UnaryOp, C) -> C,
)
    requires
        drop_free(code),
        depth_from(0, code, nvars, cap) is Ok,
    ensures
        depth_from(0, optimize_spec(code, g, h), nvars, cap) == depth_from(0, code, nvars, cap),
    decreases code.len(),
{
    if code.len() > 0 {
        let p = code.drop_last();
        let e = code.last();
        assert(drop_free(p)) by {
            assert forall|i: int| 0 <= i < p.len() implies !(#[trigger] p[i] is Drop) by {
                assert(p[i] == code[i]);
            }
        }
        optimize_within_stack(p, nvars, cap, g, h);
        let o = optimize_spec(p, g, h);
        let d = depth_from(0, p, nvars, cap)->Ok_0;
        lemma_depth_from_push(o, e, nvars, cap);
        if e is Dup && top_one(o) {
            lemma_depth_from_push(o, o.last(), nvars, cap);
        } else if binary_of(e) is Some && top_two(o) {
            let q = o.drop_last().drop_last();
            let op = binary_of(e)->Some_0;
            let a = o[o.len() - 2]->Const_0;
            let b = o.last()->Const_0;
            assert(o.drop_last() =~= q.push(o[o.len() - 2]));
            assert(o =~= o.drop_last().push(o.last()));
            lemma_depth_from_push(q, o[o.len() - 2], nvars, cap);
            lemma_depth_from_push(o.drop_last(), o.last(), nvars, cap);
            lemma_depth_from_push(q, Expr::Const(g(op, a, b)), nvars, cap);
        } else if unary_of(e) is Some && top_one(o) {
            let q = o.drop_last();
            let op = unary_of(e)->Some_0;
            assert(o =~= q.push(o.last()));
            lemma_depth_from_push(q, o.last(), nvars, cap);
            lemma_depth_from_push(q, Expr::Const(h(op, o.last()->Const_0)), nvars, cap);
        }
    }
}

/// Folding a well-formed program gives a well-formed program that evaluates to
/// the same value.
pub proof fn optimize_equivalent<C>(
    code: Seq<Expr<C>>,
    vars: Seq<C>,
    g: spec_fn(BinaryOp, C, C) -> C,
    h: spec_fn(UnaryOp, C) -> C,
)
    requires
        drop_free(code),
        well_formed(code, vars.len()),
    ensures
        well_formed(optimize_spec(code, g, h), vars.len()),
        eval_spec(optimize_spec(code, g, h), vars, g, h) == eval_spec(code, vars, g, h),
{
    lemma_depth_run_from(code, vars.len());
    lemma_depth_run_from(optimize_spec(code, g, h), vars.len());
    optimize_within_stack(code, vars.len(), STACK_CAPACITY as nat, g, h);
    lemma_optimize_keeps_values(code, vars, g, h);
}

} // verus!
