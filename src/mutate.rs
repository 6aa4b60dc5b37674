//! Random rewrites of one instruction of a program, and what they preserve.

use rand::rngs::StdRng;
use rand::Rng;
use vstd::prelude::*;

use crate::eval::{
    depth_from, depth_step_in, lemma_depth_from_cap, lemma_depth_from_bound,
    lemma_depth_from_concat, lemma_depth_run_from, well_formed, well_formed_with_room, StackError,
};
use crate::expr::{binary_of, unary_of, Expr, Program};
use crate::stack::STACK_CAPACITY;

verus! {

/// The most instructions that one rewrite puts in place of one instruction.
pub const MAX_MUTATION_SIZE: usize = 3;

/// The number of rewrites of a literal or a register.
pub const VALUE_RULES: usize = 11;

/// The number of rewrites of a binary operator.
pub const BINARY_RULES: usize = 3;

/// The number of rewrites of a unary operator.
pub const UNARY_RULES: usize = 6;

/// rand's seedable generator, carried through opaque: only `random_below` reads it.
#[verifier::external_type_specification]
#[verifier::external_body]
pub struct ExStdRng(StdRng);

/// Relies on rand's `Rng::gen_range` on `0..n`: a value in the range, which
/// is not empty.
#[verifier::external_body]
fn random_below(rng: &mut StdRng, n: usize) -> (r: usize)
    requires
        n > 0,
    ensures
        r < n,
{
    rng.gen_range(0..n)
}

/// Rewrite `k` of the value-producing instruction `v`; `fresh` is a new
/// literal and `var` a register. The result still pushes one value.
pub open spec fn value_rewrite<C>(v: Expr<C>, k: nat, fresh: C, var: usize) -> Seq<Expr<C>> {
    let n = Expr::Const(fresh);
    if k == 0 {
        seq![n]
    } else if k == 1 {
        seq![Expr::Var(var)]
    } else if k == 2 {
        seq![v, n, Expr::Add]
    } else if k == 3 {
        seq![n, v, Expr::Add]
    } else if k == 4 {
        seq![v, n, Expr::Sub]
    } else if k == 5 {
        seq![n, v, Expr::Sub]
    } else if k == 6 {
        seq![v, n, Expr::Mul]
    } else if k == 7 {
        seq![n, v, Expr::Mul]
    } else if k == 8 {
        seq![v, Expr::Cos]
    } else if k == 9 {
        seq![v, Expr::Sin]
    } else {
        seq![v, Expr::Atan]
    }
}

/// Rewrite `k` of a binary operator: another of `+`, `-`, `*`.
pub open spec fn binary_rewrite<C>(k: nat) -> Seq<Expr<C>> {
    if k == 0 {
        seq![Expr::Add]
    } else if k == 1 {
        seq![Expr::Sub]
    } else {
        seq![Expr::Mul]
    }
}

/// Rewrite `k` of a unary operator: another one, an added or multiplied new
/// literal `fresh`, or nothing.
pub open spec fn unary_rewrite<C>(k: nat, fresh: C) -> Seq<Expr<C>> {
    if k == 0 {
        seq![Expr::Cos]
    } else if k == 1 {
        seq![Expr::Sin]
    } else if k == 2 {
        seq![Expr::Const(fresh), Expr::Add]
    } else if k == 3 {
        seq![Expr::Const(fresh), Expr::Mul]
    } else if k == 4 {
        seq![Expr::Atan]
    } else {
        Seq::empty()
    }
}

/// The literals that `fresh` may draw.
pub open spec fn drawn_by<C, K: Fn() -> C>(fresh: K) -> spec_fn(C) -> bool {
    |c: C| fresh.ensures((), c)
}

/// `rep` is one of the rewrites of `e` on `nvars` registers, any new literal
/// in it satisfying `ok`. An instruction without rewrites (`Dup`, `Drop`)
/// stays as it is.
pub open spec fn is_rewrite<C>(e: Expr<C>, rep: Seq<Expr<C>>, nvars: nat, ok: spec_fn(C) -> bool) -> bool {
    if e is Const || e is Var {
        exists|k: nat, fresh: C, var: usize|
            k < VALUE_RULES && var < nvars && ok(fresh) && rep == #[trigger] value_rewrite(e, k, fresh, var)
    } else if binary_of(e) is Some {
        exists|k: nat| k < BINARY_RULES && rep == #[trigger] binary_rewrite::<C>(k)
    } else if unary_of(e) is Some {
        exists|k: nat, fresh: C|
            k < UNARY_RULES && ok(fresh) && rep == #[trigger] unary_rewrite(k, fresh)
    } else {
        rep == seq![e]
    }
}

/// `next` is `prev` with the instruction at `nth` replaced by one of its
/// rewrites, whose new literal, if any, satisfies `ok`.
pub open spec fn mutation_at<C>(prev: Seq<Expr<C>>, next: Seq<Expr<C>>, nth: int, nvars: nat, ok: spec_fn(C) -> bool) -> bool {
    &&& 0 <= nth < prev.len()
    &&& exists|rep: Seq<Expr<C>>|
        is_rewrite(prev[nth], rep, nvars, ok) && next == #[trigger] (prev.take(nth) + rep + prev.skip(nth + 1))
}

/// The instructions that rewrite `k` puts in place of the value-producing `v`.
pub fn value_rule<C: Copy>(v: Expr<C>, k: usize, fresh: C, var: usize) -> (r: Vec<Expr<C>>)
    requires
        k < VALUE_RULES,
    ensures
        r@ == value_rewrite(v, k as nat, fresh, var),
{
    let n = Expr::Const(fresh);
    let r = if k == 0 {
        vec![n]
    } else if k == 1 {
        vec![Expr::Var(var)]
    } else if k == 2 {
        vec![v, n, Expr::Add]
    } else if k == 3 {
        vec![n, v, Expr::Add]
    } else if k == 4 {
        vec![v, n, Expr::Sub]
    } else if k == 5 {
        vec![n, v, Expr::Sub]
    } else if k == 6 {
        vec![v, n, Expr::Mul]
    } else if k == 7 {
        vec![n, v, Expr::Mul]
    } else if k == 8 {
        vec![v, Expr::Cos]
    } else if k == 9 {
        vec![v, Expr::Sin]
    } else {
        vec![v, Expr::Atan]
    };
    assert(r@ =~= value_rewrite(v, k as nat, fresh, var));
    r
}

/// The instructions that rewrite `k` puts in place of a binary operator.
pub fn binary_rule<C: Copy>(k: usize) -> (r: Vec<Expr<C>>)
    requires
        k < BINARY_RULES,
    ensures
        r@ == binary_rewrite::<C>(k as nat),
{
    let r = if k == 0 {
        vec![Expr::Add]
    } else if k == 1 {
        vec![Expr::Sub]
    } else {
        vec![Expr::Mul]
    };
    assert(r@ =~= binary_rewrite::<C>(k as nat));
    r
}

/// The instructions that rewrite `k` puts in place of a unary operator.
pub fn unary_rule<C: Copy>(k: usize, fresh: C) -> (r: Vec<Expr<C>>)
    requires
        k < UNARY_RULES,
    ensures
        r@ == unary_rewrite(k as nat, fresh),
{
    let r = if k == 0 {
        vec![Expr::Cos]
    } else if k == 1 {
        vec![Expr::Sin]
    } else if k == 2 {
        vec![Expr::Const(fresh), Expr::Add]
    } else if k == 3 {
        vec![Expr::Const(fresh), Expr::Mul]
    } else if k == 4 {
        vec![Expr::Atan]
    } else {
        Vec::new()
    };
    assert(r@ =~= unary_rewrite(k as nat, fresh));
    r
}

/// A new random literal, drawn by `fresh`.
pub fn make_const<C: Copy, K: Fn() -> C>(fresh: &K) -> (r: Expr<C>)
    requires
        fresh.requires(()),
    ensures
        r is Const,
        fresh.ensures((), r->Const_0),
{
    Expr::Const(fresh())
}

/// A random rewrite of the value-producing instruction `v`.
fn mutated_value<C: Copy, K: Fn() -> C>(rng: &mut StdRng, v: Expr<C>, nvars: usize, fresh: &K) -> (r: Vec<
    Expr<C>,
>)
    requires
        nvars > 0,
        fresh.requires(()),
    ensures
        exists|k: nat, c: C, var: usize|
            k < VALUE_RULES && var < nvars && fresh.ensures((), c) && r@ == #[trigger] value_rewrite(
                v,
                k,
                c,
                var,
            ),
{
    let k = random_below(rng, VALUE_RULES);
    let c = fresh();
    let var = random_below(rng, nvars);
    let r = value_rule(v, k, c, var);
    assert(r@ == value_rewrite(v, k as nat, c, var));
    r
}

/// A random rewrite of the literal `x`: one of `VALUE_RULES`, with a new literal
/// from `fresh` and a register below `nvars`.
pub fn mutated_constant<C: Copy, K: Fn() -> C>(rng: &mut StdRng, x: C, nvars: usize, fresh: &K) -> (r:
    Vec<Expr<C>>)
    requires
        nvars > 0,
        fresh.requires(()),
    ensures
        exists|k: nat, c: C, var: usize|
            k < VALUE_RULES && var < nvars && fresh.ensures((), c) && r@ == #[trigger] value_rewrite(
                Expr::Const(x),
                k,
                c,
                var,
            ),
{
    mutated_value(rng, Expr::Const(x), nvars, fresh)
}

/// A random rewrite of register `i`: one of `VALUE_RULES`, with a new literal
/// from `fresh` and a register below `nvars`.
pub fn mutated_var<C: Copy, K: Fn() -> C>(rng: &mut StdRng, i: usize, nvars: usize, fresh: &K) -> (r:
    Vec<Expr<C>>)
    requires
        nvars > 0,
        fresh.requires(()),
    ensures
        exists|k: nat, c: C, var: usize|
            k < VALUE_RULES && var < nvars && fresh.ensures((), c) && r@ == #[trigger] value_rewrite(
                Expr::Var(i),
                k,
                c,
                var,
            ),
{
    mutated_value(rng, Expr::Var(i), nvars, fresh)
}

/// A random binary operator among `+`, `-`, `*`.
pub fn mutated_binary_op<C: Copy>(rng: &mut StdRng) -> (r: Vec<Expr<C>>)
    ensures
        exists|k: nat| k < BINARY_RULES && r@ == #[trigger] binary_rewrite::<C>(k),
{
    let k = random_below(rng, BINARY_RULES);
    let r = binary_rule(k);
    assert(r@ == binary_rewrite::<C>(k as nat));
    r
}

/// A random rewrite of a unary operator, with a new literal from `fresh`.
pub fn mutated_unary_op<C: Copy, K: Fn() -> C>(rng: &mut StdRng, fresh: &K) -> (r: Vec<Expr<C>>)
    requires
        fresh.requires(()),
    ensures
        exists|k: nat, c: C|
            k < UNARY_RULES && fresh.ensures((), c) && r@ == #[trigger] unary_rewrite(k, c),
{
    let k = random_below(rng, UNARY_RULES);
    let c = fresh();
    let r = unary_rule(k, c);
    assert(r@ == unary_rewrite(k as nat, c));
    r
}

/// Replaces the instruction at `nth` by `rep`, keeping the others in order.
pub fn splice<C: Copy>(code: &mut Vec<Expr<C>>, nth: usize, rep: &Vec<Expr<C>>)
    requires
        nth < old(code)@.len(),
        rep@.len() <= MAX_MUTATION_SIZE,
    ensures
        final(code)@ == old(code)@.take(nth as int) + rep@ + old(code)@.skip(nth + 1),
{
    let ghost o = code@;
    if rep.len() == 0 {
        code.remove(nth);
        assert(code@ =~= o.take(nth as int) + rep@ + o.skip(nth + 1));
    } else {
        code.set(nth, rep[0]);
        let mut j: usize = 1;
        while j < rep.len()
            invariant
                1 <= j <= rep@.len(),
                rep@.len() <= MAX_MUTATION_SIZE,
                nth < o.len(),
                code@ == o.take(nth as int) + rep@.take(j as int) + o.skip(nth + 1),
                code@.len() == o.len() - 1 + j,
            decreases rep@.len() - j,
        {
            let len = code.len();
            assert(nth + j <= len);
            code.insert(nth + j, rep[j]);
            assert(code@ =~= o.take(nth as int) + rep@.take(j + 1) + o.skip(nth + 1));
            j = j + 1;
        }
        assert(rep@.take(j as int) =~= rep@);
    }
}

/// Replaces one random instruction of `prg` by a random rewrite of it: the
/// program stays in place, changed at one position only, and a new literal is
/// one that `fresh` drew.
pub fn mutate<C: Copy, K: Fn() -> C>(rng: &mut StdRng, prg: &mut Program<C>, nvars: usize, fresh: &K)
    requires
        old(prg).code@.len() > 0,
        nvars > 0,
        fresh.requires(()),
    ensures
        exists|nth: int| mutation_at(old(prg).code@, final(prg).code@, nth, nvars as nat, drawn_by(*fresh)),
        final(prg).code@.len() <= old(prg).code@.len() + MAX_MUTATION_SIZE - 1,
        final(prg).code@.len() + 1 >= old(prg).code@.len(),
{
    let nth = random_below(rng, prg.code.len());
    let e = prg.code[nth];
    let rep: Vec<Expr<C>> = match e {
        Expr::Const(x) => {
            let r = mutated_constant(rng, x, nvars, fresh);
            let ghost (k, c, v) = choose|k: nat, c: C, var: usize|
                k < VALUE_RULES && var < nvars && fresh.ensures((), c) && r@ == #[trigger] value_rewrite(
                    Expr::Const(x),
                    k,
                    c,
                    var,
                );
            assert(r@ == value_rewrite(e, k, c, v));
            assert(is_rewrite(e, r@, nvars as nat, drawn_by(*fresh)));
            r
        },
        Expr::Var(i) => {
            let r = mutated_var(rng, i, nvars, fresh);
            let ghost (k, c, v) = choose|k: nat, c: C, var: usize|
                k < VALUE_RULES && var < nvars && fresh.ensures((), c) && r@ == #[trigger] value_rewrite(
                    Expr::Var(i),
                    k,
                    c,
                    var,
                );
            assert(r@ == value_rewrite(e, k, c, v));
            assert(is_rewrite(e, r@, nvars as nat, drawn_by(*fresh)));
            r
        },
        Expr::Add | Expr::Sub | Expr::Mul | Expr::Max | Expr::Min => {
            let r = mutated_binary_op(rng);
            assert(is_rewrite(e, r@, nvars as nat, drawn_by(*fresh)));
            r
        },
        Expr::Cos | Expr::Sin | Expr::Atan => {
            let r = mutated_unary_op(rng, fresh);
            let ghost (k, c) = choose|k: nat, c: C|
                k < UNARY_RULES && fresh.ensures((), c) && r@ == #[trigger] unary_rewrite(k, c);
            assert(r@ == unary_rewrite(k, c));
            assert(is_rewrite(e, r@, nvars as nat, drawn_by(*fresh)));
            r
        },
        Expr::Dup | Expr::Drop => {
            let r = vec![e];
            assert(r@ =~= seq![e]);
            assert(is_rewrite(e, r@, nvars as nat, drawn_by(*fresh)));
            r
        },
    };
    assert(is_rewrite(e, rep@, nvars as nat, drawn_by(*fresh)));
    proof {
        lemma_rewrite_size(e, rep@, nvars as nat, drawn_by(*fresh));
    }
    let ghost o = prg.code@;
    splice(&mut prg.code, nth, &rep);
    assert(mutation_at(o, prg.code@, nth as int, nvars as nat, drawn_by(*fresh)));
}

/// A rewrite puts at most `MAX_MUTATION_SIZE` instructions in place of one,
/// and at least one in place of a value-producing instruction.
pub proof fn lemma_rewrite_size<C>(e: Expr<C>, rep: Seq<Expr<C>>, nvars: nat, ok: spec_fn(C) -> bool)
    requires
        is_rewrite(e, rep, nvars, ok),
    ensures
        rep.len() <= MAX_MUTATION_SIZE,
        (e is Const || e is Var) ==> rep.len() >= 1,
{
    if e is Const || e is Var {
        let (k, c, v) = choose|k: nat, fresh: C, var: usize|
            k < VALUE_RULES && var < nvars && rep == #[trigger] value_rewrite(e, k, fresh, var);
    } else if binary_of(e) is Some {
        let k = choose|k: nat| k < BINARY_RULES && rep == #[trigger] binary_rewrite::<C>(k);
    } else if unary_of(e) is Some {
        let (k, c) = choose|k: nat, fresh: C| k < UNARY_RULES && rep == #[trigger] unary_rewrite(k, fresh);
    }
}

/// One mutation changes the length of a program by at most
/// `MAX_MUTATION_SIZE - 1`, and never shortens it where the chosen instruction
/// pushes a value, so such a mutation never leaves it empty.
pub proof fn mutation_invariants<C>(prev: Seq<Expr<C>>, next: Seq<Expr<C>>, nth: int, nvars: nat, ok: spec_fn(C) -> bool)
    requires
        mutation_at(prev, next, nth, nvars, ok),
    ensures
        next.len() <= prev.len() + MAX_MUTATION_SIZE - 1,
        next.len() + 1 >= prev.len(),
        (prev[nth] is Const || prev[nth] is Var) ==> next.len() >= prev.len() && next.len() > 0,
{
    let rep = choose|rep: Seq<Expr<C>>|
        is_rewrite(prev[nth], rep, nvars, ok) && next == #[trigger] (prev.take(nth) + rep + prev.skip(nth + 1));
    lemma_rewrite_size(prev[nth], rep, nvars, ok);
}

/// The program holds a literal or a register.
pub open spec fn has_value<C>(code: Seq<Expr<C>>) -> bool {
    exists|i: int| 0 <= i < code.len() && (#[trigger] code[i] is Const || code[i] is Var)
}

/// Program `j + 1` of `chain` is a mutation of program `j`.
pub open spec fn mutation_step<C>(chain: Seq<Seq<Expr<C>>>, j: int, nvars: nat, ok: spec_fn(C) -> bool) -> bool {
    exists|nth: int| #[trigger] mutation_at(chain[j], chain[j + 1], nth, nvars, ok)
}

/// Each program of `chain` after the first is a mutation of the one before.
pub open spec fn mutation_chain<C>(chain: Seq<Seq<Expr<C>>>, nvars: nat, ok: spec_fn(C) -> bool) -> bool {
    forall|j: int| 0 <= j < chain.len() - 1 ==> #[trigger] mutation_step(chain, j, nvars, ok)
}

/// `next` comes from `prev` by `k` mutations in turn.
pub open spec fn mutated_times<C>(prev: Seq<Expr<C>>, next: Seq<Expr<C>>, k: int, nvars: nat, ok: spec_fn(C) -> bool) -> bool {
    exists|chain: Seq<Seq<Expr<C>>>|
        #[trigger] mutation_chain(chain, nvars, ok) && chain.len() == k + 1 && chain[0] == prev && chain[k]
            == next
}

/// Zero mutations leave a program unchanged.
pub proof fn lemma_mutated_times_zero<C>(a: Seq<Expr<C>>, nvars: nat, ok: spec_fn(C) -> bool)
    ensures
        mutated_times(a, a, 0, nvars, ok),
{
    let chain = seq![a];
    assert(mutation_chain(chain, nvars, ok));
}

/// A mutation keeps a literal or a register in the program: every rewrite of
/// one starts with one, so a program that holds one never becomes empty.
pub proof fn lemma_mutation_keeps_value<C>(prev: Seq<Expr<C>>, next: Seq<Expr<C>>, nth: int, nvars: nat, ok: spec_fn(C) -> bool)
    requires
        mutation_at(prev, next, nth, nvars, ok),
        has_value(prev),
    ensures
        has_value(next),
{
    let rep = choose|rep: Seq<Expr<C>>|
        is_rewrite(prev[nth], rep, nvars, ok) && next == #[trigger] (prev.take(nth) + rep + prev.skip(nth + 1));
    let i = choose|i: int| 0 <= i < prev.len() && (#[trigger] prev[i] is Const || prev[i] is Var);
    if i < nth {
        assert(next[i] == prev[i]);
    } else if i > nth {
        assert(next[i - 1 + rep.len()] == prev[i]);
    } else {
        let e = prev[nth];
        let (k, c, v) = choose|k: nat, fresh: C, var: usize|
            k < VALUE_RULES && var < nvars && rep == #[trigger] value_rewrite(e, k, fresh, var);
        assert(rep[0] is Const || rep[0] is Var);
        assert(next[nth] == rep[0]);
    }
}

/// One more mutation after `k` of them makes `k + 1`.
pub proof fn lemma_mutated_times_step<C>(
    a: Seq<Expr<C>>,
    b: Seq<Expr<C>>,
    c: Seq<Expr<C>>,
    k: int,
    nth: int,
    nvars: nat,
    ok: spec_fn(C) -> bool,
)
    requires
        k >= 0,
        mutated_times(a, b, k, nvars, ok),
        mutation_at(b, c, nth, nvars, ok),
    ensures
        mutated_times(a, c, k + 1, nvars, ok),
{
    let chain = choose|chain: Seq<Seq<Expr<C>>>|
        #[trigger] mutation_chain(chain, nvars, ok) && chain.len() == k + 1 && chain[0] == a && chain[k] == b;
    let longer = chain.push(c);
    assert forall|j: int| 0 <= j < longer.len() - 1 implies #[trigger] mutation_step(longer, j, nvars, ok) by {
        if j < k {
            assert(mutation_step(chain, j, nvars, ok));
            assert(longer[j] == chain[j] && longer[j + 1] == chain[j + 1]);
        } else {
            assert(mutation_at(longer[j], longer[j + 1], nth, nvars, ok));
        }
    }
    assert(mutation_chain(longer, nvars, ok));
}

/// The depth run of a short sequence, step by step.
proof fn lemma_depth_from_short<C>(d: nat, rep: Seq<Expr<C>>, nvars: nat, cap: nat)
    requires
        rep.len() <= 3,
    ensures
        rep.len() == 0 ==> depth_from(d, rep, nvars, cap) == Ok::<nat, StackError>(d),
        rep.len() >= 1 ==> depth_from(d, rep.take(1), nvars, cap) == depth_step_in(d, rep[0], nvars, cap),
        rep.len() >= 2 ==> depth_from(d, rep.take(2), nvars, cap) == match depth_from(d, rep.take(1), nvars, cap) {
            Err(e) => Err(e),
            Ok(x) => depth_step_in(x, rep[1], nvars, cap),
        },
        rep.len() == 3 ==> depth_from(d, rep, nvars, cap) == match depth_from(d, rep.take(2), nvars, cap) {
            Err(e) => Err(e),
            Ok(x) => depth_step_in(x, rep[2], nvars, cap),
        },
        rep.len() == 2 ==> depth_from(d, rep, nvars, cap) == depth_from(d, rep.take(2), nvars, cap),
        rep.len() == 1 ==> depth_from(d, rep, nvars, cap) == depth_from(d, rep.take(1), nvars, cap),
{
    if rep.len() >= 1 {
        assert(rep.take(1).drop_last() =~= Seq::<Expr<C>>::empty());
        assert(depth_from(d, Seq::<Expr<C>>::empty(), nvars, cap) == Ok::<nat, StackError>(d));
    }
    if rep.len() >= 2 {
        assert(rep.take(2).drop_last() =~= rep.take(1));
    }
    if rep.len() == 3 {
        assert(rep.drop_last() =~= rep.take(2));
    }
    if rep.len() == 2 {
        assert(rep =~= rep.take(2));
    }
    if rep.len() == 1 {
        assert(rep =~= rep.take(1));
    }
}

/// A rewrite of `e` leaves the stack where `e` leaves it, using at most one
/// slot more on the way.
proof fn lemma_rewrite_depth<C>(e: Expr<C>, rep: Seq<Expr<C>>, nvars: nat, d: nat, ok: spec_fn(C) -> bool)
    requires
        is_rewrite(e, rep, nvars, ok),
        d <= STACK_CAPACITY - 1,
        depth_step_in(d, e, nvars, (STACK_CAPACITY - 1) as nat) is Ok,
    ensures
        depth_from(d, rep, nvars, STACK_CAPACITY as nat) == depth_step_in(
            d,
            e,
            nvars,
            (STACK_CAPACITY - 1) as nat,
        ),
{
    let cap = STACK_CAPACITY as nat;
    lemma_rewrite_size(e, rep, nvars, ok);
    lemma_depth_from_short(d, rep, nvars, cap);
    if e is Const || e is Var {
        let (k, c, v) = choose|k: nat, fresh: C, var: usize|
            k < VALUE_RULES && var < nvars && rep == #[trigger] value_rewrite(e, k, fresh, var);
        assert(d + 1 <= 63);
        if k >= 2 && k <= 7 {
            assert(rep.len() == 3);
        } else if k >= 8 {
            assert(rep.len() == 2);
        } else {
            assert(rep.len() == 1);
        }
    } else if binary_of(e) is Some {
        let k = choose|k: nat| k < BINARY_RULES && rep == #[trigger] binary_rewrite::<C>(k);
        assert(rep.len() == 1);
    } else if unary_of(e) is Some {
        let (k, c) = choose|k: nat, fresh: C| k < UNARY_RULES && rep == #[trigger] unary_rewrite(k, fresh);
        if k == 2 || k == 3 {
            assert(rep.len() == 2);
        } else if k == 5 {
            assert(rep.len() == 0);
        } else {
            assert(rep.len() == 1);
        }
    } else {
        assert(rep.len() == 1);
    }
}

/// Mutation keeps the stack discipline: a program that is valid with one slot
/// of the stack to spare stays valid after any one mutation, on the full stack.
pub proof fn mutation_keeps_well_formed<C>(prev: Seq<Expr<C>>, next: Seq<Expr<C>>, nth: int, nvars: nat, ok: spec_fn(C) -> bool)
    requires
        mutation_at(prev, next, nth, nvars, ok),
        well_formed_with_room(prev, nvars),
    ensures
        well_formed(next, nvars),
{
    let small = (STACK_CAPACITY - 1) as nat;
    let large = STACK_CAPACITY as nat;
    let rep = choose|rep: Seq<Expr<C>>|
        is_rewrite(prev[nth], rep, nvars, ok) && next == #[trigger] (prev.take(nth) + rep + prev.skip(nth + 1));
    let a = prev.take(nth);
    let e = prev[nth];
    let b = prev.skip(nth + 1);
    assert(prev =~= a + seq![e] + b);
    lemma_depth_from_concat(0, a + seq![e], b, nvars, small);
    lemma_depth_from_concat(0, a, seq![e], nvars, small);
    assert(seq![e].drop_last() =~= Seq::<Expr<C>>::empty());
    reveal_with_fuel(depth_from, 2);
    let x = depth_from(0, a, nvars, small)->Ok_0;
    let y = depth_step_in(x, e, nvars, small)->Ok_0;
    assert(depth_from(x, seq![e], nvars, small) == depth_step_in(x, e, nvars, small));
    lemma_depth_from_cap(0, a, nvars, small, large);
    lemma_depth_from_bound(0, a, nvars, small);
    lemma_rewrite_depth(e, rep, nvars, x, ok);
    lemma_depth_from_cap(y, b, nvars, small, large);
    lemma_depth_from_concat(0, a, rep, nvars, large);
    lemma_depth_from_concat(0, a + rep, b, nvars, large);
    lemma_depth_run_from(next, nvars);
}

} // verus!
