//! The operator contract every schedulable computation step satisfies, and
//! the built-in operators the network ships with. Operator state is held as a
//! closed tagged sum so the network can dispatch with an exhaustive match.

use vstd::prelude::*;
use crate::tensor::gen_tensor::GenTensor;

verus! {

/// The contract of a schedulable operator over one tensor type: a display
/// name, the forward computation, the gradient accumulation, and access to
/// the learnable parameter values and their gradients.
pub trait OpTrait<TT> {
    /// A display name for diagnostics.
    fn get_name(&self) -> &'static str;

    /// Forward pass: the output tensors as a function of the inputs and the
    /// current parameter state.
    fn apply(&mut self, input: &Vec<TT>) -> Vec<TT>;

    /// Backward pass: the updated input gradients, accumulated into (not
    /// overwriting) the current ones, given the forward inputs and the
    /// gradients of the outputs.
    fn grad(&self, input: &Vec<TT>, output_grad: &Vec<TT>, input_grad: &Vec<TT>) -> Vec<TT>;

    /// The learnable parameter values.
    fn get_values(&self) -> Vec<TT>;

    /// Overwrite the learnable parameter values.
    fn set_values(&mut self, v: &Vec<TT>);

    /// The gradients of the learnable parameters.
    fn get_grads(&self) -> Vec<TT>;
}

/// The do-nothing operator backing composite markers: it computes nothing and
/// produces no outputs.
pub struct Nop {}

impl Nop {
    pub fn new() -> Nop {
        Nop {  }
    }
}

/// Element-wise multiplication of two equally sized tensors.
pub struct Mul {}

impl Mul {
    pub fn new() -> Mul {
        Mul {  }
    }

    /// Forward pass: the element-wise product of the two inputs, or no output
    /// when the inputs do not pair up.
    pub fn apply<T: num_traits::Float>(&self, input: &Vec<GenTensor<T>>) -> (r: Vec<GenTensor<T>>)
        ensures
            (input@.len() >= 2 && input@[0].data().len() == input@[1].data().len()) ==> {
                &&& r@.len() == 1
                &&& r@[0].shape() == input@[0].shape()
                &&& r@[0].data().len() == input@[0].data().len()
            },
            !(input@.len() >= 2 && input@[0].data().len() == input@[1].data().len()) ==> r@.len()
                == 0,
    {
        let mut out: Vec<GenTensor<T>> = Vec::new();
        if input.len() >= 2 {
            let a = &input[0];
            let b = &input[1];
            if a.numel() == b.numel() {
                out.push(a.mul(b));
            }
        }
        out
    }

    /// Backward pass: the gradient of each input is the output gradient times
    /// the other input, added onto the current input gradient when one of
    /// matching size is present.
    pub fn grad<T: num_traits::Float>(
        &self,
        input: &Vec<GenTensor<T>>,
        output_grad: &Vec<GenTensor<T>>,
        input_grad: &Vec<GenTensor<T>>,
    ) -> (r: Vec<GenTensor<T>>)
        ensures
            (input@.len() >= 2 && output_grad@.len() >= 1 && input_grad@.len() >= 2
                && output_grad@[0].data().len() == input@[0].data().len()
                && output_grad@[0].data().len() == input@[1].data().len()) ==> {
                &&& r@.len() == 2
                &&& r@[0].data().len() == input@[0].data().len()
                &&& r@[1].data().len() == input@[1].data().len()
            },
    {
        let mut out: Vec<GenTensor<T>> = Vec::new();
        if input.len() >= 2 && output_grad.len() >= 1 && input_grad.len() >= 2 {
            let g = &output_grad[0];
            let a = &input[0];
            let b = &input[1];
            if g.numel() == a.numel() && g.numel() == b.numel() {
                let ga = Self::accumulate(g.mul(b), &input_grad[0]);
                let gb = Self::accumulate(g.mul(a), &input_grad[1]);
                out.push(ga);
                out.push(gb);
            }
        }
        out
    }

    /// Add `existing` onto `fresh` when their sizes match; an empty or
    /// mismatched existing gradient leaves `fresh` as it is.
    fn accumulate<T: num_traits::Float>(fresh: GenTensor<T>, existing: &GenTensor<T>) -> (r:
        GenTensor<T>)
        ensures
            r.shape() == fresh.shape(),
            r.data().len() == fresh.data().len(),
    {
        if existing.numel() == fresh.numel() && existing.numel() > 0 {
            fresh.add(existing)
        } else {
            fresh
        }
    }
}

/// The kinds of operator the network ships with, as a closed tagged sum.
pub enum OpKind {
    /// The composite marker: no computation.
    Nop(Nop),
    /// Element-wise multiplication.
    Mul(Mul),
}

/// One schedulable operator: a tag the network stores by handle and
/// dispatches on exhaustively.
pub struct Op {
    o: OpKind,
}

impl Op {
    /// The operator kind.
    pub closed spec fn kind(&self) -> OpKind {
        self.o
    }

    pub fn new(o: OpKind) -> (r: Op)
        ensures
            r.kind() == o,
    {
        Op { o }
    }

    /// The do-nothing operator backing composite markers.
    pub fn nop() -> (r: Op)
        ensures
            r.kind() is Nop,
    {
        Op { o: OpKind::Nop(Nop::new()) }
    }

    /// The operator kind, for callers that match on it.
    pub fn get(&self) -> (r: &OpKind)
        ensures
            *r == self.kind(),
    {
        &self.o
    }

    /// The display name of the operator kind.
    pub fn get_name(&self) -> (r: &'static str)
        ensures
            self.kind() is Nop ==> r@ == "Nop"@,
            self.kind() is Mul ==> r@ == "Mul"@,
    {
        match &self.o {
            OpKind::Nop(_) => "Nop",
            OpKind::Mul(_) => "Mul",
        }
    }

    /// Forward pass of the wrapped operator.
    pub fn apply<T: num_traits::Float>(&self, input: &Vec<GenTensor<T>>) -> (r: Vec<GenTensor<T>>)
        ensures
            self.kind() is Nop ==> r@.len() == 0,
            self.kind() is Mul ==> ((input@.len() >= 2 && input@[0].data().len()
                == input@[1].data().len()) ==> {
                &&& r@.len() == 1
                &&& r@[0].shape() == input@[0].shape()
                &&& r@[0].data().len() == input@[0].data().len()
            }),
            self.kind() is Mul ==> (!(input@.len() >= 2 && input@[0].data().len()
                == input@[1].data().len()) ==> r@.len() == 0),
    {
        match &self.o {
            OpKind::Nop(_) => Vec::new(),
            OpKind::Mul(m) => m.apply(input),
        }
    }

    /// Backward pass of the wrapped operator.
    pub fn grad<T: num_traits::Float>(
        &self,
        input: &Vec<GenTensor<T>>,
        output_grad: &Vec<GenTensor<T>>,
        input_grad: &Vec<GenTensor<T>>,
    ) -> (r: Vec<GenTensor<T>>)
        ensures
            self.kind() is Nop ==> r@.len() == 0,
            self.kind() is Mul ==> ((input@.len() >= 2 && output_grad@.len() >= 1
                && input_grad@.len() >= 2 && output_grad@[0].data().len()
                == input@[0].data().len() && output_grad@[0].data().len()
                == input@[1].data().len()) ==> {
                &&& r@.len() == 2
                &&& r@[0].data().len() == input@[0].data().len()
                &&& r@[1].data().len() == input@[1].data().len()
            }),
    {
        match &self.o {
            OpKind::Nop(_) => Vec::new(),
            OpKind::Mul(m) => m.grad(input, output_grad, input_grad),
        }
    }

    /// The learnable parameter values of the wrapped operator; the built-in
    /// operators are stateless.
    pub fn get_values<T: num_traits::Float>(&self) -> (r: Vec<GenTensor<T>>)
        ensures
            r@.len() == 0,
    {
        Vec::new()
    }

    /// Overwrite the learnable parameter values; the built-in operators hold
    /// none, so nothing changes.
    pub fn set_values<T: num_traits::Float>(&mut self, v: &Vec<GenTensor<T>>)
        ensures
            *final(self) == *old(self),
    {
    }

    /// The gradients of the learnable parameters; the built-in operators are
    /// stateless.
    pub fn get_grads<T: num_traits::Float>(&self) -> (r: Vec<GenTensor<T>>)
        ensures
            r@.len() == 0,
    {
        Vec::new()
    }
}

} // verus!
