//! The input registers of an evaluation.

use vstd::prelude::*;

verus! {

/// The input registers of one evaluation (register 0 is x, register 1 is y).
pub struct State<C> {
    pub vars: Vec<C>,
}

impl<C: Copy> State<C> {
    /// `n` registers, each holding `zero`.
    pub fn new(n: usize, zero: C) -> (r: Self)
        ensures
            r.vars@ == Seq::new(n as nat, |i: int| zero),
    {
        let mut vars: Vec<C> = Vec::with_capacity(n);
        let mut i: usize = 0;
        while i < n
            invariant
                i <= n,
                vars@ == Seq::new(i as nat, |j: int| zero),
            decreases n - i,
        {
            vars.push(zero);
            i = i + 1;
            assert(vars@ =~= Seq::new(i as nat, |j: int| zero));
        }
        State { vars }
    }
}

} // verus!
