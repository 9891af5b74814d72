use vstd::prelude::*;

use crate::channel::{written_count, In, Out};
use crate::graph::Node;

verus! {

/// The output channel of a `Constant`: `count` copies of `value` on every read.
pub struct ConstantOut<S> {
    pub count: usize,
    pub value: S,
}

impl<S: Copy> Out<S> for ConstantOut<S> {
    open spec fn samples(&self) -> Seq<S> {
        Seq::new(self.count as nat, |i: int| self.value)
    }

    fn num_samples(&self) -> (n: usize) {
        self.count
    }

    fn output(&self, dst: &mut [S]) -> (written: usize) {
        let upper = if self.count <= dst.len() { self.count } else { dst.len() };
        let mut i: usize = 0;
        while i < upper
            invariant
                i <= upper,
                upper == written_count(self.count as nat, old(dst)@.len()),
                dst@.len() == old(dst)@.len(),
                forall|j: int| 0 <= j < i ==> dst@[j] == self.value,
                forall|j: int| i <= j < old(dst)@.len() ==> dst@[j] == old(dst)@[j],
            decreases upper - i,
        {
            dst[i] = self.value;
            i = i + 1;
        }
        upper
    }
}

/// A source node without inputs whose single output always holds the same samples.
pub struct Constant<S> {
    output: ConstantOut<S>,
}

impl<S: Copy> Constant<S> {
    /// A constant source producing `count` copies of `value` on each read.
    pub fn new(count: usize, value: S) -> (c: Constant<S>)
        ensures
            c.view() == (ConstantOut { count, value }),
    {
        Constant { output: ConstantOut { count, value } }
    }

    /// The output channel of the node.
    pub closed spec fn view(&self) -> ConstantOut<S> {
        self.output
    }

    /// The output channel of the node, with its own contract.
    pub fn channel(&self) -> (o: &ConstantOut<S>)
        ensures
            *o == self.view(),
    {
        &self.output
    }
}

impl<S: Copy + 'static> Node<S> for Constant<S> {
    /// A `Constant` has no inputs.
    open spec fn arity_in(&self) -> nat {
        0
    }

    /// A `Constant` has one output.
    open spec fn arity_out(&self) -> nat {
        1
    }

    /// Running a `Constant` changes nothing.
    fn run(&mut self)
        ensures
            final(self).view() == old(self).view(),
    {
    }

    fn num_inputs(&self) -> (n: usize)
        ensures
            n == 0,
    {
        0
    }

    /// There is no input to hand out.
    fn get_input(&mut self, idx: usize) -> (c: Option<&mut dyn In<S>>)
        ensures
            c is None,
    {
        None
    }

    fn num_outputs(&self) -> (n: usize)
        ensures
            n == 1,
    {
        1
    }

    /// The single output channel, at index 0.
    fn get_output(&self, idx: usize) -> (c: Option<&dyn Out<S>>)
        ensures
            c is Some <==> idx == 0,
            c is Some ==> c->0.samples() == self.view().samples(),
    {
        if idx == 0 {
            Some(&self.output)
        } else {
            None
        }
    }
}

}
