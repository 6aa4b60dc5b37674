//! Individuals and populations.

use rand::rngs::StdRng;
use vstd::prelude::*;

use crate::expr::{Expr, Program};

verus! {

/// One candidate program and its error, absent until evaluated.
#[derive(Debug, Clone)]
pub struct Individual<C, E> {
    pub prg: Program<C>,
    pub error: Option<E>,
}

/// The individuals of one generation; once ranked, the best comes first.
#[derive(Debug, Clone)]
pub struct Population<C, E> {
    pub individuals: Vec<Individual<C, E>>,
}

impl<C: Copy> Program<C> {
    /// A program with the same instructions.
    pub fn duplicate(&self) -> (r: Program<C>)
        ensures
            r.code@ == self.code@,
    {
        let mut code: Vec<Expr<C>> = Vec::with_capacity(self.code.len());
        let mut i: usize = 0;
        while i < self.code.len()
            invariant
                i <= self.code.len(),
                code@ == self.code@.take(i as int),
            decreases self.code.len() - i,
        {
            code.push(self.code[i]);
            i = i + 1;
            assert(code@ =~= self.code@.take(i as int));
        }
        assert(self.code@.take(i as int) =~= self.code@);
        Program { code }
    }
}

impl<C: Copy, E: Copy> Individual<C, E> {
    /// An individual with the same program and error.
    pub fn duplicate(&self) -> (r: Individual<C, E>)
        ensures
            r.prg.code@ == self.prg.code@,
            r.error == self.error,
    {
        Individual { prg: self.prg.duplicate(), error: self.error }
    }

    /// The simplest individual: the single literal `seed`, not evaluated.
    pub fn random(rng: &StdRng, seed: C) -> (r: Individual<C, E>)
        ensures
            r.prg.code@ == seq![Expr::Const(seed)],
            r.error is None,
    {
        let code = vec![Expr::Const(seed)];
        assert(code@ =~= seq![Expr::Const(seed)]);
        Individual { error: None, prg: Program { code } }
    }
}

impl<C: Copy, E: Copy> Population<C, E> {
    /// An empty population with room for `size` individuals.
    pub fn with_capacity(size: usize) -> (r: Self)
        ensures
            r.individuals@.len() == 0,
    {
        Population { individuals: Vec::with_capacity(size) }
    }

    /// `size` of the simplest individuals, each the single literal `seed`.
    pub fn random(rng: &StdRng, size: usize, seed: C) -> (r: Self)
        ensures
            r.individuals@.len() == size,
            forall|i: int|
                0 <= i < size ==> (#[trigger] r.individuals@[i]).prg.code@ == seq![Expr::Const(seed)]
                    && r.individuals@[i].error is None,
    {
        let mut pop = Population::with_capacity(size);
        let mut i: usize = 0;
        while i < size
            invariant
                i <= size,
                pop.individuals@.len() == i,
                forall|j: int|
                    0 <= j < i ==> (#[trigger] pop.individuals@[j]).prg.code@ == seq![
                        Expr::Const(seed),
                    ] && pop.individuals@[j].error is None,
            decreases size - i,
        {
            let ind = Individual::random(rng, seed);
            pop.individuals.push(ind);
            i = i + 1;
        }
        pop
    }

    /// The number of individuals.
    pub fn size(&self) -> (r: usize)
        ensures
            r == self.individuals@.len(),
    {
        self.individuals.len()
    }
}

} // verus!
