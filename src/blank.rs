use vstd::prelude::*;

use crate::channel::{In, Out};
use crate::graph::Node;

verus! {

/// A node with the given numbers of input and output jacks and no processing of its own: a
/// placeholder that holds a place in a patch while it is being laid out.
pub struct Blank {
    pub inputs: usize,
    pub outputs: usize,
}

impl<S> Node<S> for Blank {
    open spec fn arity_in(&self) -> nat {
        self.inputs as nat
    }

    open spec fn arity_out(&self) -> nat {
        self.outputs as nat
    }

    /// Running a `Blank` changes nothing.
    fn run(&mut self)
        ensures
            *final(self) == *old(self),
    {
    }

    fn num_inputs(&self) -> (n: usize) {
        self.inputs
    }

    /// A `Blank` carries no samples, so it hands out no channel.
    fn get_input(&mut self, idx: usize) -> Option<&mut dyn In<S>> {
        None
    }

    fn num_outputs(&self) -> (n: usize) {
        self.outputs
    }

    /// A `Blank` carries no samples, so it hands out no channel.
    fn get_output(&self, idx: usize) -> Option<&dyn Out<S>> {
        None
    }
}

}
