//! Evaluation stacks.

use vstd::prelude::*;

verus! {

/// The number of values that an evaluation stack holds at most.
pub const STACK_CAPACITY: usize = 64;

/// An evaluation stack without a bound; the top is the last element.
pub struct Stack<C> {
    stack: Vec<C>,
}

impl<C: Copy> View for Stack<C> {
    type V = Seq<C>;

    closed spec fn view(&self) -> Seq<C> {
        self.stack@
    }
}

impl<C: Copy> Stack<C> {
    /// An empty stack.
    pub fn new() -> (r: Self)
        ensures
            r@ == Seq::<C>::empty(),
    {
        Stack { stack: Vec::new() }
    }

    /// Removes and returns the top value; the stack must not be empty.
    pub fn pop(&mut self) -> (r: C)
        requires
            old(self)@.len() > 0,
        ensures
            r == old(self)@.last(),
            final(self)@ == old(self)@.drop_last(),
    {
        self.stack.pop().unwrap()
    }

    /// Puts `value` on top.
    pub fn push(&mut self, value: C)
        ensures
            final(self)@ == old(self)@.push(value),
    {
        self.stack.push(value);
    }

    /// The single value left at the end of an evaluation, which empties the stack.
    pub fn result(&mut self) -> (r: C)
        requires
            old(self)@.len() == 1,
        ensures
            r == old(self)@[0],
            final(self)@ == Seq::<C>::empty(),
    {
        self.pop()
    }
}

/// An evaluation stack of fixed capacity: an array of `STACK_CAPACITY` slots
/// and a cursor, the slots below the cursor holding the values, the top last.
pub struct Stack2<C> {
    stack: [Option<C>; 64],
    i: usize,
}

impl<C: Copy> View for Stack2<C> {
    type V = Seq<C>;

    closed spec fn view(&self) -> Seq<C> {
        self.stack@.take(self.i as int).map_values(|o: Option<C>| o->Some_0)
    }
}

impl<C: Copy> Stack2<C> {
    /// The cursor stays within the array and every slot below it holds a value.
    pub closed spec fn wf(&self) -> bool {
        &&& self.i <= STACK_CAPACITY
        &&& forall|j: int| 0 <= j < self.i ==> (#[trigger] self.stack@[j]) is Some
    }

    /// A well-formed stack holds at most `STACK_CAPACITY` values.
    pub proof fn lemma_wf_len(&self)
        requires
            self.wf(),
        ensures
            self@.len() <= STACK_CAPACITY,
    {
    }

    /// An empty stack.
    pub fn new() -> (r: Self)
        ensures
            r.wf(),
            r@ == Seq::<C>::empty(),
    {
        let r = Stack2 { stack: [None; 64], i: 0 };
        assert(r@ =~= Seq::<C>::empty());
        r
    }

    /// The number of values on the stack.
    pub fn len(&self) -> (r: usize)
        requires
            self.wf(),
        ensures
            r == self@.len(),
    {
        self.i
    }

    /// Removes and returns the top value; the stack must not be empty.
    pub fn pop(&mut self) -> (r: C)
        requires
            old(self).wf(),
            old(self)@.len() > 0,
        ensures
            final(self).wf(),
            r == old(self)@.last(),
            final(self)@ == old(self)@.drop_last(),
    {
        let ghost before = self@;
        self.i = self.i - 1;
        let r = self.stack[self.i].unwrap();
        assert(self@ =~= before.drop_last());
        r
    }

    /// Puts `value` on top; the stack must not be full.
    pub fn push(&mut self, value: C)
        requires
            old(self).wf(),
            old(self)@.len() < STACK_CAPACITY,
        ensures
            final(self).wf(),
            final(self)@ == old(self)@.push(value),
    {
        let ghost before = self@;
        self.stack[self.i] = Some(value);
        self.i = self.i + 1;
        assert(self@ =~= before.push(value));
    }

    /// The single value left at the end of an evaluation, which empties the stack.
    pub fn result(&mut self) -> (r: C)
        requires
            old(self).wf(),
            old(self)@.len() == 1,
        ensures
            final(self).wf(),
            r == old(self)@[0],
            final(self)@ == Seq::<C>::empty(),
    {
        let r = self.pop();
        assert(self@ =~= Seq::<C>::empty());
        r
    }
}

} // verus!
