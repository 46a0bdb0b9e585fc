use std::rc::Rc;
use vstd::prelude::*;

use crate::tensor::{share, Tensor};

verus! {

/// An operation kind: how a node's value follows from its inputs, and how the
/// gradient that reaches the node is handed on to them.
///
/// The graph machinery depends on this capability alone. The three `spec`
/// functions are the operator's meaning; the executable methods must compute
/// exactly them.
pub trait Operator<T: Tensor> {
    /// Whether the operator can be applied to `inputs`: the right number of
    /// them, with values it can combine.
    spec fn accepts(&self, inputs: Seq<Rc<T>>) -> bool;

    /// The node's value for these inputs.
    spec fn output(&self, inputs: Seq<Rc<T>>) -> Rc<T>;

    /// The gradients handed to the inputs, in input order, when
    /// `output_grad` reaches the node.
    spec fn input_grads(&self, output_grad: Rc<T>, inputs: Seq<Rc<T>>) -> Seq<Rc<T>>;

    /// Decides [`Operator::accepts`] for the inputs in `ctx`.
    fn applicable(&self, ctx: &ForwardContext<T>) -> (ok: bool)
        ensures
            ok == self.accepts(ctx@),
    ;

    /// Computes the node's value. It reads nothing but `ctx`.
    fn forward(&self, ctx: &ForwardContext<T>) -> (out: Rc<T>)
        requires
            self.accepts(ctx@),
        ensures
            out == self.output(ctx@),
    ;

    /// Appends one gradient per input to `ctx` and hands it back.
    fn backward(&self, ctx: BackwardContext<T>) -> (out: BackwardContext<T>)
        requires
            self.accepts(ctx@.inputs),
        ensures
            out@.output_grad == ctx@.output_grad,
            out@.inputs == ctx@.inputs,
            out@.input_grads == ctx@.input_grads + self.input_grads(
                ctx@.output_grad,
                ctx@.inputs,
            ),
            self.input_grads(ctx@.output_grad, ctx@.inputs).len() == ctx@.inputs.len(),
    ;
}

/// The input values handed to an operator's forward computation.
pub struct ForwardContext<T> {
    inputs: Vec<Rc<T>>,
}

impl<T> View for ForwardContext<T> {
    type V = Seq<Rc<T>>;

    /// The inputs, in input order.
    closed spec fn view(&self) -> Seq<Rc<T>> {
        self.inputs@
    }
}

impl<T> ForwardContext<T> {
    /// A context over `inputs`, in input order.
    pub fn new(inputs: Vec<Rc<T>>) -> (ctx: Self)
        ensures
            ctx@ == inputs@,
    {
        Self { inputs }
    }

    /// How many inputs there are.
    pub fn len(&self) -> (n: usize)
        ensures
            n == self@.len(),
    {
        self.inputs.len()
    }

    /// Gives the inputs back.
    pub fn into_inputs(self) -> (inputs: Vec<Rc<T>>)
        ensures
            inputs@ == self@,
    {
        self.inputs
    }

    /// The input at `index`, shared rather than copied.
    pub fn input(&self, index: usize) -> (value: Rc<T>)
        requires
            index < self@.len(),
        ensures
            value == self@[index as int],
    {
        share(&self.inputs[index])
    }
}

/// What a [`BackwardContext`] holds.
pub ghost struct BackwardView<T> {
    /// The gradient that reached the node.
    pub output_grad: Rc<T>,
    /// The node's input values, as at forward time.
    pub inputs: Seq<Rc<T>>,
    /// The gradients appended so far, in input order.
    pub input_grads: Seq<Rc<T>>,
}

/// What an operator's backward computation reads, and where it leaves the
/// gradients of the inputs.
pub struct BackwardContext<T> {
    output_grad: Rc<T>,
    inputs: Vec<Rc<T>>,
    input_grads: Vec<Rc<T>>,
}

impl<T> View for BackwardContext<T> {
    type V = BackwardView<T>;

    closed spec fn view(&self) -> BackwardView<T> {
        BackwardView {
            output_grad: self.output_grad,
            inputs: self.inputs@,
            input_grads: self.input_grads@,
        }
    }
}

impl<T> BackwardContext<T> {
    /// A context with no input gradient yet.
    pub fn new(output_grad: Rc<T>, inputs: Vec<Rc<T>>) -> (ctx: Self)
        ensures
            ctx@.output_grad == output_grad,
            ctx@.inputs == inputs@,
            ctx@.input_grads == Seq::<Rc<T>>::empty(),
    {
        Self { output_grad, inputs, input_grads: Vec::new() }
    }

    /// Appends the gradient of the next input.
    pub fn append_input_grad(&mut self, input: Rc<T>)
        ensures
            final(self)@.output_grad == old(self)@.output_grad,
            final(self)@.inputs == old(self)@.inputs,
            final(self)@.input_grads == old(self)@.input_grads.push(input),
    {
        self.input_grads.push(input);
    }

    /// The gradient that reached the node, shared rather than copied.
    pub fn output_grad(&self) -> (grad: Rc<T>)
        ensures
            grad == self@.output_grad,
    {
        share(&self.output_grad)
    }

    /// How many input gradients have been appended.
    pub fn input_grads_len(&self) -> (n: usize)
        ensures
            n == self@.input_grads.len(),
    {
        self.input_grads.len()
    }

    /// The gradient appended for the input at `index`, shared rather than
    /// copied.
    pub fn input_grad(&self, index: usize) -> (grad: Rc<T>)
        requires
            index < self@.input_grads.len(),
        ensures
            grad == self@.input_grads[index as int],
    {
        share(&self.input_grads[index])
    }
}

/// Element-wise addition of two tensors.
pub struct Addition;

impl<T: Tensor> Operator<T> for Addition {
    /// Exactly two inputs whose values can be added.
    open spec fn accepts(&self, inputs: Seq<Rc<T>>) -> bool {
        inputs.len() == 2 && inputs[0].can_add(&*inputs[1])
    }

    /// The sum of the two inputs.
    open spec fn output(&self, inputs: Seq<Rc<T>>) -> Rc<T> {
        Rc::new(inputs[0].sum(&*inputs[1]))
    }

    /// A sum passes its gradient on unchanged to either addend.
    open spec fn input_grads(&self, output_grad: Rc<T>, inputs: Seq<Rc<T>>) -> Seq<Rc<T>> {
        seq![output_grad, output_grad]
    }

    fn applicable(&self, ctx: &ForwardContext<T>) -> (ok: bool) {
        if ctx.len() != 2 {
            return false;
        }
        let lhs = ctx.input(0);
        let rhs = ctx.input(1);
        lhs.addable(&*rhs)
    }

    fn forward(&self, ctx: &ForwardContext<T>) -> (out: Rc<T>) {
        let lhs = ctx.input(0);
        let rhs = ctx.input(1);
        let result = lhs.add(&*rhs);
        Rc::new(result)
    }

    fn backward(&self, ctx: BackwardContext<T>) -> (out: BackwardContext<T>) {
        let mut out = ctx;
        let first = out.output_grad();
        let second = out.output_grad();
        out.append_input_grad(first);
        out.append_input_grad(second);
        proof {
            assert(out@.input_grads =~= ctx@.input_grads + seq![
                ctx@.output_grad,
                ctx@.output_grad,
            ]);
        }
        out
    }
}

/// The operation kinds a node can carry. Everything outside this module
/// goes through the [`Operator`] capability of the kind, never through the
/// variant, so a new operation is one more variant here and nothing
/// elsewhere.
pub enum OperatorKind {
    Addition(Addition),
}

impl<T: Tensor> Operator<T> for OperatorKind {
    open spec fn accepts(&self, inputs: Seq<Rc<T>>) -> bool {
        match self {
            OperatorKind::Addition(operator) => Operator::<T>::accepts(operator, inputs),
        }
    }

    open spec fn output(&self, inputs: Seq<Rc<T>>) -> Rc<T> {
        match self {
            OperatorKind::Addition(operator) => Operator::<T>::output(operator, inputs),
        }
    }

    open spec fn input_grads(&self, output_grad: Rc<T>, inputs: Seq<Rc<T>>) -> Seq<Rc<T>> {
        match self {
            OperatorKind::Addition(operator) => Operator::<T>::input_grads(
                operator,
                output_grad,
                inputs,
            ),
        }
    }

    fn applicable(&self, ctx: &ForwardContext<T>) -> (ok: bool) {
        match self {
            OperatorKind::Addition(operator) => operator.applicable(ctx),
        }
    }

    fn forward(&self, ctx: &ForwardContext<T>) -> (out: Rc<T>) {
        match self {
            OperatorKind::Addition(operator) => operator.forward(ctx),
        }
    }

    fn backward(&self, ctx: BackwardContext<T>) -> (out: BackwardContext<T>) {
        match self {
            OperatorKind::Addition(operator) => operator.backward(ctx),
        }
    }
}

} // verus!
