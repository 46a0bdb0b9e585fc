use std::rc::Rc;

use compgraph::error::GraphError;
use compgraph::network::{Feeder, Network};
use compgraph::operator::{Addition, BackwardContext, ForwardContext, Operator, OperatorKind};
use compgraph::shape::broadcastable;
use compgraph::tensor::{Tensor, TensorId};
use ndarray::{arr1, arr2, ArrayD};

/// A dynamic-dimensional array of `f32`, as the tensor of a graph.
#[derive(Debug, Clone, PartialEq)]
struct Arr(ArrayD<f32>);

impl Tensor for Arr {
    fn can_add(&self, rhs: &Self) -> bool {
        broadcastable(self.0.shape(), rhs.0.shape())
    }

    fn sum(&self, rhs: &Self) -> Self {
        Arr(&self.0 + &rhs.0)
    }

    fn ones(&self) -> Self {
        Arr(ArrayD::ones(self.0.shape()))
    }

    fn addable(&self, rhs: &Self) -> bool {
        self.can_add(rhs)
    }

    fn add(&self, rhs: &Self) -> Self {
        self.sum(rhs)
    }

    fn ones_like(&self) -> Self {
        self.ones()
    }
}

fn tensor(rows: &[[f32; 2]; 2]) -> Rc<Arr> {
    Rc::new(Arr(arr2(rows).into_dyn()))
}

fn assert_rel_eq_arr(actual: &ArrayD<f32>, expected: &ArrayD<f32>) {
    assert_eq!(actual.shape(), expected.shape());
    for (v, w) in actual.iter().zip(expected.iter()) {
        let diff = (v - w).abs();
        let largest = v.abs().max(w.abs());
        assert!(
            v == w || diff <= f32::EPSILON || diff <= largest * f32::EPSILON,
            "{} is not {}",
            v,
            w
        );
    }
}

#[test]
fn add() {
    let mut network = Network::new();
    let x = network.variable(tensor(&[[1.0, 1.0], [2.0, 2.0]]));
    let y = network.placeholder();
    let z = network.add(x, y).unwrap();

    let y_data = tensor(&[[3.0, 4.0], [3.0, 4.0]]);
    let result = network.feed(y, y_data).forward(z).unwrap();
    assert_rel_eq_arr(&arr2(&[[4.0, 5.0], [5.0, 6.0]]).into_dyn(), &result.0);

    network.backward(z).unwrap();
    assert_rel_eq_arr(
        &arr2(&[[1.0, 1.0], [1.0, 1.0]]).into_dyn(),
        &network.get_grad(x).unwrap().0,
    );
}

#[test]
fn nested_add() {
    let mut network = Network::new();
    let x = network.variable(tensor(&[[1.0, 1.0], [2.0, 2.0]]));
    let y = network.placeholder();
    let z = network.add(x, y).unwrap();
    let w = network.add(x, z).unwrap();

    let y_data = tensor(&[[3.0, 4.0], [-3.0, 4.0]]);
    let result = network.feed(y, y_data).forward(w).unwrap();
    assert_rel_eq_arr(&arr2(&[[5.0, 6.0], [1.0, 8.0]]).into_dyn(), &result.0);

    network.backward(w).unwrap();
    assert_rel_eq_arr(
        &arr2(&[[2.0, 2.0], [2.0, 2.0]]).into_dyn(),
        &network.get_grad(x).unwrap().0,
    );
}

#[test]
fn handles_are_issued_in_creation_order() {
    let mut network = Network::new();
    let x = network.variable(tensor(&[[1.0, 1.0], [2.0, 2.0]]));
    let y = network.placeholder();
    let z = network.add(x, y).unwrap();
    assert_eq!(x, TensorId(0));
    assert_eq!(y, TensorId(1));
    assert_eq!(z, TensorId(2));
}

#[test]
fn access_tensor_shows_what_was_registered() {
    let mut network: Network<Arr> = Network::new();
    let x = network.variable(tensor(&[[1.0, 1.0], [2.0, 2.0]]));
    let y = network.placeholder();
    let z = network.add(y, x).unwrap();

    let node = network.access_tensor(x).unwrap();
    assert!(node.operator.is_none() && node.inputs.is_empty() && node.is_differentiable);
    let node = network.access_tensor(y).unwrap();
    assert!(node.operator.is_none() && node.inputs.is_empty() && !node.is_differentiable);
    let node = network.access_tensor(z).unwrap();
    assert!(matches!(node.operator, Some(OperatorKind::Addition(Addition))));
    assert_eq!(node.inputs, vec![y, x]);
    assert!(node.is_differentiable);
    assert_eq!(
        network.access_tensor(TensorId(3)).err(),
        Some(GraphError::NodeNotFound(TensorId(3)))
    );
}

#[test]
fn forward_of_a_variable_is_its_value() {
    let mut network = Network::new();
    let x = network.variable(tensor(&[[1.0, -1.0], [2.5, 0.0]]));
    let result = network.forward(x).unwrap();
    assert_eq!(result.0, arr2(&[[1.0, -1.0], [2.5, 0.0]]).into_dyn());
}

#[test]
fn forward_shares_the_stored_value() {
    let mut network = Network::new();
    let value = tensor(&[[1.0, 1.0], [2.0, 2.0]]);
    let x = network.variable(Rc::clone(&value));
    let result = network.forward(x).unwrap();
    assert!(Rc::ptr_eq(&value, &result));
    assert_eq!(Rc::strong_count(&value), 3);
}

#[test]
fn forward_sum_does_not_depend_on_tree_shape() {
    let a = tensor(&[[1.0, 2.0], [3.0, 4.0]]);
    let b = tensor(&[[10.0, 20.0], [30.0, 40.0]]);
    let c = tensor(&[[100.0, 200.0], [300.0, 400.0]]);
    let expected = arr2(&[[111.0, 222.0], [333.0, 444.0]]).into_dyn();

    let mut left = Network::new();
    let x = left.variable(Rc::clone(&a));
    let y = left.variable(Rc::clone(&b));
    let z = left.variable(Rc::clone(&c));
    let xy = left.add(x, y).unwrap();
    let root = left.add(xy, z).unwrap();
    assert_eq!(left.forward(root).unwrap().0, expected);

    let mut right = Network::new();
    let x = right.variable(a);
    let y = right.variable(b);
    let z = right.variable(c);
    let yz = right.add(y, z).unwrap();
    let root = right.add(x, yz).unwrap();
    assert_eq!(right.forward(root).unwrap().0, expected);
}

#[test]
fn forward_broadcasts_a_row() {
    let mut network = Network::new();
    let x = network.variable(tensor(&[[1.0, 1.0], [2.0, 2.0]]));
    let y = network.variable(Rc::new(Arr(arr1(&[10.0, 20.0]).into_dyn())));
    let z = network.add(x, y).unwrap();
    let result = network.forward(z).unwrap();
    assert_eq!(result.0, arr2(&[[11.0, 21.0], [12.0, 22.0]]).into_dyn());
}

#[test]
fn forward_stores_every_value_on_the_way() {
    let mut network = Network::new();
    let x = network.variable(tensor(&[[1.0, 1.0], [2.0, 2.0]]));
    let y = network.variable(tensor(&[[3.0, 4.0], [-3.0, 4.0]]));
    let z = network.add(x, y).unwrap();
    let w = network.add(x, z).unwrap();
    network.forward(w).unwrap();
    // `z` was evaluated on the way, so a backward pass can start from it.
    network.backward(z).unwrap();
    assert_eq!(network.get_grad(z).unwrap().0, arr2(&[[1.0, 1.0], [1.0, 1.0]]).into_dyn());
}

#[test]
fn forward_twice_gives_the_same_value() {
    let mut network = Network::new();
    let x = network.variable(tensor(&[[0.1, 0.2], [0.3, 0.4]]));
    let y = network.placeholder();
    let z = network.add(x, y).unwrap();
    let w = network.add(z, z).unwrap();
    network.feed(y, tensor(&[[0.7, 0.11], [1.3, -0.4]]));
    let first = network.forward(w).unwrap();
    let second = network.forward(w).unwrap();
    assert_eq!(first.0.shape(), second.0.shape());
    for (a, b) in first.0.iter().zip(second.0.iter()) {
        assert_eq!(a.to_bits(), b.to_bits());
    }
}

#[test]
fn refeeding_replaces_the_value() {
    let mut network = Network::new();
    let x = network.variable(tensor(&[[1.0, 1.0], [2.0, 2.0]]));
    let y = network.placeholder();
    let z = network.add(x, y).unwrap();
    let first = network.feed(y, tensor(&[[3.0, 4.0], [3.0, 4.0]])).forward(z).unwrap();
    assert_eq!(first.0, arr2(&[[4.0, 5.0], [5.0, 6.0]]).into_dyn());
    let second = network.feed(y, tensor(&[[0.0, 0.0], [10.0, 10.0]])).forward(z).unwrap();
    assert_eq!(second.0, arr2(&[[1.0, 1.0], [12.0, 12.0]]).into_dyn());
}

#[test]
fn feeding_a_variable_replaces_its_value() {
    let mut network = Network::new();
    let x = network.variable(tensor(&[[1.0, 1.0], [2.0, 2.0]]));
    network.feed(x, tensor(&[[5.0, 5.0], [5.0, 5.0]]));
    assert_eq!(network.forward(x).unwrap().0, arr2(&[[5.0, 5.0], [5.0, 5.0]]).into_dyn());
}

#[test]
fn forward_names_the_unfed_placeholder() {
    let mut network: Network<Arr> = Network::new();
    let x = network.variable(tensor(&[[1.0, 1.0], [2.0, 2.0]]));
    let y = network.placeholder();
    let z = network.add(x, y).unwrap();
    assert_eq!(network.forward(z), Err(GraphError::UnfedPlaceholder(y)));
    assert_eq!(network.forward(y), Err(GraphError::UnfedPlaceholder(y)));
}

#[test]
fn forward_names_the_unfed_placeholder_it_meets_first() {
    let mut network: Network<Arr> = Network::new();
    let p = network.placeholder();
    let q = network.placeholder();
    let z = network.add(p, q).unwrap();
    // Inputs are evaluated from the last to the first.
    assert_eq!(network.forward(z), Err(GraphError::UnfedPlaceholder(q)));
    network.feed(q, tensor(&[[1.0, 1.0], [1.0, 1.0]]));
    assert_eq!(network.forward(z), Err(GraphError::UnfedPlaceholder(p)));
}

#[test]
fn forward_rejects_a_foreign_handle() {
    let mut network: Network<Arr> = Network::new();
    let x = network.variable(tensor(&[[1.0, 1.0], [2.0, 2.0]]));
    assert_eq!(network.forward(TensorId(x.0 + 1)), Err(GraphError::NodeNotFound(TensorId(1))));
}

#[test]
fn forward_names_the_node_whose_inputs_do_not_fit() {
    let mut network = Network::new();
    let x = network.variable(tensor(&[[1.0, 1.0], [2.0, 2.0]]));
    let y = network.variable(Rc::new(Arr(arr1(&[1.0, 2.0, 3.0]).into_dyn())));
    let z = network.add(x, y).unwrap();
    let w = network.add(z, x).unwrap();
    assert_eq!(network.forward(w), Err(GraphError::Incompatible(z)));
}

#[test]
fn add_rejects_a_foreign_handle() {
    let mut network: Network<Arr> = Network::new();
    let x = network.variable(tensor(&[[1.0, 1.0], [2.0, 2.0]]));
    assert_eq!(network.add(x, TensorId(7)), Err(GraphError::NodeNotFound(TensorId(7))));
    assert_eq!(network.add(TensorId(8), x), Err(GraphError::NodeNotFound(TensorId(8))));
    assert_eq!(network.add(TensorId(8), TensorId(7)), Err(GraphError::NodeNotFound(TensorId(8))));
    // Nothing was registered by the failed calls.
    assert_eq!(network.placeholder(), TensorId(1));
}

#[test]
fn backward_before_forward_is_not_evaluated() {
    let mut network: Network<Arr> = Network::new();
    let x = network.variable(tensor(&[[1.0, 1.0], [2.0, 2.0]]));
    let y = network.placeholder();
    let z = network.add(x, y).unwrap();
    assert_eq!(network.backward(z), Err(GraphError::NotEvaluated(z)));
    assert_eq!(network.get_grad(x), Err(GraphError::NotEvaluated(x)));
    assert_eq!(network.get_grad(z), Err(GraphError::NotEvaluated(z)));
}

#[test]
fn backward_needs_the_values_of_the_inputs() {
    let mut network: Network<Arr> = Network::new();
    let x = network.variable(tensor(&[[1.0, 1.0], [2.0, 2.0]]));
    let y = network.placeholder();
    let z = network.add(x, y).unwrap();
    // `z` is given a value by hand, `y` never gets one.
    network.feed(z, tensor(&[[0.0, 0.0], [0.0, 0.0]]));
    assert_eq!(network.backward(z), Err(GraphError::NotEvaluated(y)));
    assert_eq!(network.get_grad(z), Err(GraphError::NotEvaluated(z)));
}

#[test]
fn backward_rejects_a_foreign_handle() {
    let mut network: Network<Arr> = Network::new();
    assert_eq!(network.backward(TensorId(0)), Err(GraphError::NodeNotFound(TensorId(0))));
}

#[test]
fn placeholders_receive_no_gradient() {
    let mut network = Network::new();
    let x = network.variable(tensor(&[[1.0, 1.0], [2.0, 2.0]]));
    let y = network.placeholder();
    let z = network.add(x, y).unwrap();
    let w = network.add(y, z).unwrap();
    network.feed(y, tensor(&[[3.0, 4.0], [-3.0, 4.0]]));
    network.forward(w).unwrap();
    network.backward(w).unwrap();
    assert_eq!(network.get_grad(y), Err(GraphError::NotEvaluated(y)));
    assert_eq!(network.get_grad(x).unwrap().0, arr2(&[[1.0, 1.0], [1.0, 1.0]]).into_dyn());
    assert_eq!(network.get_grad(w).unwrap().0, arr2(&[[1.0, 1.0], [1.0, 1.0]]).into_dyn());
}

#[test]
fn gradient_waits_for_every_consumer() {
    let mut network = Network::new();
    let x = network.variable(tensor(&[[1.0, 1.0], [2.0, 2.0]]));
    let u = network.add(x, x).unwrap();
    let v = network.add(u, u).unwrap();
    network.forward(v).unwrap();
    network.backward(v).unwrap();
    // v = 4x
    assert_eq!(network.get_grad(u).unwrap().0, arr2(&[[2.0, 2.0], [2.0, 2.0]]).into_dyn());
    assert_eq!(network.get_grad(x).unwrap().0, arr2(&[[4.0, 4.0], [4.0, 4.0]]).into_dyn());
}

#[test]
fn backward_starts_from_nothing() {
    let mut network = Network::new();
    let x = network.variable(tensor(&[[1.0, 1.0], [2.0, 2.0]]));
    let y = network.variable(tensor(&[[3.0, 4.0], [-3.0, 4.0]]));
    let z = network.add(x, y).unwrap();
    let w = network.add(x, z).unwrap();
    network.forward(w).unwrap();
    network.backward(w).unwrap();
    assert_eq!(network.get_grad(x).unwrap().0, arr2(&[[2.0, 2.0], [2.0, 2.0]]).into_dyn());
    network.backward(z).unwrap();
    assert_eq!(network.get_grad(x).unwrap().0, arr2(&[[1.0, 1.0], [1.0, 1.0]]).into_dyn());
    assert_eq!(network.get_grad(w), Err(GraphError::NotEvaluated(w)));
}

#[test]
fn failed_backward_keeps_the_gradients() {
    let mut network = Network::new();
    let x = network.variable(tensor(&[[1.0, 1.0], [2.0, 2.0]]));
    let y = network.placeholder();
    let z = network.add(x, y).unwrap();
    network.feed(y, tensor(&[[3.0, 4.0], [3.0, 4.0]]));
    network.forward(z).unwrap();
    network.backward(z).unwrap();
    // The placeholder now holds a value that no longer fits.
    network.feed(y, Rc::new(Arr(arr1(&[1.0, 2.0, 3.0]).into_dyn())));
    assert_eq!(network.backward(z), Err(GraphError::Incompatible(z)));
    assert_eq!(network.get_grad(x).unwrap().0, arr2(&[[1.0, 1.0], [1.0, 1.0]]).into_dyn());
}

#[test]
fn gradients_take_the_shape_of_the_target() {
    let mut network = Network::new();
    let x = network.variable(Rc::new(Arr(arr1(&[1.0, 2.0]).into_dyn())));
    let a = network.variable(tensor(&[[1.0, 1.0], [2.0, 2.0]]));
    let z = network.add(x, a).unwrap();
    let b = network.variable(Rc::new(Arr(ArrayD::ones(vec![3, 1, 2]))));
    let w = network.add(z, b).unwrap();
    let v = network.add(w, z).unwrap();
    assert_eq!(network.forward(v).unwrap().0.shape(), &[3, 2, 2]);
    network.backward(v).unwrap();
    assert_eq!(network.get_grad(v).unwrap().0, ArrayD::<f32>::ones(vec![3, 2, 2]));
    assert_eq!(network.get_grad(z).unwrap().0, ArrayD::<f32>::ones(vec![3, 2, 2]) * 2.0);
    assert_eq!(network.get_grad(x).unwrap().0, ArrayD::<f32>::ones(vec![3, 2, 2]) * 2.0);
}

/// A counter that cannot go beyond one.
#[derive(Debug, PartialEq)]
struct Capped(u8);

impl Tensor for Capped {
    fn can_add(&self, rhs: &Self) -> bool {
        self.0 + rhs.0 <= 1
    }

    fn sum(&self, rhs: &Self) -> Self {
        Capped(self.0 + rhs.0)
    }

    fn ones(&self) -> Self {
        Capped(1)
    }

    fn addable(&self, rhs: &Self) -> bool {
        self.can_add(rhs)
    }

    fn add(&self, rhs: &Self) -> Self {
        self.sum(rhs)
    }

    fn ones_like(&self) -> Self {
        self.ones()
    }
}

#[test]
fn gradient_that_cannot_be_added_is_incompatible() {
    let mut network = Network::new();
    let x = network.variable(Rc::new(Capped(0)));
    let z = network.add(x, x).unwrap();
    assert_eq!(network.forward(z), Ok(Rc::new(Capped(0))));
    // Both edges from `x` to `z` carry a one, and one and one is too much.
    assert_eq!(network.backward(z), Err(GraphError::Incompatible(x)));
    assert_eq!(network.get_grad(z), Err(GraphError::NotEvaluated(z)));
}

#[test]
fn feeder_finds_what_was_fed() {
    let mut feeder = Feeder::new();
    let value = tensor(&[[1.0, 1.0], [2.0, 2.0]]);
    feeder.feed(TensorId(3), Rc::clone(&value));
    feeder.feed(TensorId(5), tensor(&[[0.0, 0.0], [0.0, 0.0]]));
    assert!(Rc::ptr_eq(&feeder.get(TensorId(3)).unwrap(), &value));
    assert_eq!(feeder.get(TensorId(5)).unwrap().0, arr2(&[[0.0, 0.0], [0.0, 0.0]]).into_dyn());
}

#[test]
fn feeder_refeed_replaces() {
    let mut feeder = Feeder::new();
    feeder.feed(TensorId(3), tensor(&[[1.0, 1.0], [2.0, 2.0]]));
    feeder.feed(TensorId(4), tensor(&[[9.0, 9.0], [9.0, 9.0]]));
    feeder.feed(TensorId(3), tensor(&[[7.0, 7.0], [7.0, 7.0]]));
    assert_eq!(feeder.get(TensorId(3)).unwrap().0, arr2(&[[7.0, 7.0], [7.0, 7.0]]).into_dyn());
    assert_eq!(feeder.get(TensorId(4)).unwrap().0, arr2(&[[9.0, 9.0], [9.0, 9.0]]).into_dyn());
}

#[test]
fn feeder_reports_what_was_not_fed() {
    let mut feeder: Feeder<Arr> = Feeder::new();
    assert_eq!(feeder.get(TensorId(0)), Err(GraphError::UnfedPlaceholder(TensorId(0))));
    feeder.feed(TensorId(1), tensor(&[[1.0, 1.0], [2.0, 2.0]]));
    assert_eq!(feeder.get(TensorId(0)), Err(GraphError::UnfedPlaceholder(TensorId(0))));
}

#[test]
fn addition_forward_adds() {
    let ctx = ForwardContext::new(vec![
        tensor(&[[1.0, 2.0], [3.0, 4.0]]),
        tensor(&[[0.5, 0.5], [0.5, 0.5]]),
    ]);
    assert_eq!(ctx.len(), 2);
    assert!(Addition.applicable(&ctx));
    let out = Addition.forward(&ctx);
    assert_eq!(out.0, arr2(&[[1.5, 2.5], [3.5, 4.5]]).into_dyn());
    assert_eq!(ctx.input(1).0, arr2(&[[0.5, 0.5], [0.5, 0.5]]).into_dyn());
}

#[test]
fn addition_wants_two_inputs_that_fit() {
    let one = ForwardContext::new(vec![tensor(&[[1.0, 2.0], [3.0, 4.0]])]);
    assert!(!Addition.applicable(&one));
    let three = ForwardContext::new(vec![
        tensor(&[[1.0, 2.0], [3.0, 4.0]]),
        tensor(&[[1.0, 2.0], [3.0, 4.0]]),
        tensor(&[[1.0, 2.0], [3.0, 4.0]]),
    ]);
    assert!(!Addition.applicable(&three));
    let misfit = ForwardContext::new(vec![
        tensor(&[[1.0, 2.0], [3.0, 4.0]]),
        Rc::new(Arr(arr1(&[1.0, 2.0, 3.0]).into_dyn())),
    ]);
    assert!(!OperatorKind::Addition(Addition).applicable(&misfit));
    assert_eq!(misfit.into_inputs().len(), 2);
}

#[test]
fn addition_backward_shares_the_gradient() {
    let grad = tensor(&[[1.0, 1.0], [1.0, 1.0]]);
    let ctx = BackwardContext::new(
        Rc::clone(&grad),
        vec![tensor(&[[1.0, 2.0], [3.0, 4.0]]), tensor(&[[5.0, 6.0], [7.0, 8.0]])],
    );
    assert_eq!(ctx.input_grads_len(), 0);
    let out = Addition.backward(ctx);
    assert_eq!(out.input_grads_len(), 2);
    assert!(Rc::ptr_eq(&out.input_grad(0), &grad));
    assert!(Rc::ptr_eq(&out.input_grad(1), &grad));
    assert!(Rc::ptr_eq(&out.output_grad(), &grad));
}

#[test]
fn backward_context_appends_in_order() {
    let mut ctx = BackwardContext::new(tensor(&[[1.0, 1.0], [1.0, 1.0]]), Vec::new());
    ctx.append_input_grad(tensor(&[[2.0, 2.0], [2.0, 2.0]]));
    ctx.append_input_grad(tensor(&[[3.0, 3.0], [3.0, 3.0]]));
    assert_eq!(ctx.input_grads_len(), 2);
    assert_eq!(ctx.input_grad(0).0, arr2(&[[2.0, 2.0], [2.0, 2.0]]).into_dyn());
    assert_eq!(ctx.input_grad(1).0, arr2(&[[3.0, 3.0], [3.0, 3.0]]).into_dyn());
}

#[test]
fn integers_are_tensors() {
    let mut network = Network::new();
    let x = network.variable(Rc::new(3i64));
    let y = network.placeholder();
    let z = network.add(x, y).unwrap();
    let w = network.add(x, z).unwrap();
    assert_eq!(network.feed(y, Rc::new(4i64)).forward(w), Ok(Rc::new(10i64)));
    network.backward(w).unwrap();
    assert_eq!(network.get_grad(w), Ok(Rc::new(1i64)));
    assert_eq!(network.get_grad(z), Ok(Rc::new(1i64)));
    assert_eq!(network.get_grad(x), Ok(Rc::new(2i64)));
    assert_eq!(network.get_grad(y), Err(GraphError::NotEvaluated(y)));
}

#[test]
fn integers_that_overflow_are_incompatible() {
    let mut network = Network::new();
    let x = network.variable(Rc::new(i64::MAX));
    let y = network.variable(Rc::new(1i64));
    let z = network.add(x, y).unwrap();
    assert_eq!(network.forward(z), Err(GraphError::Incompatible(z)));
    network.feed(y, Rc::new(-1i64));
    assert_eq!(network.forward(z), Ok(Rc::new(i64::MAX - 1)));
    assert!(!i64::MIN.addable(&-1));
    assert!(i64::MIN.addable(&i64::MAX));
    assert_eq!(Tensor::add(&-5i64, &7), 2);
    assert_eq!(7i64.ones_like(), 1);
}

#[test]
fn shapes_fit_when_their_trailing_axes_do() {
    assert!(broadcastable(&[2, 2], &[2, 2]));
    assert!(broadcastable(&[2, 2], &[2]));
    assert!(broadcastable(&[2], &[2, 2]));
    assert!(broadcastable(&[3, 1, 2], &[2, 2]));
    assert!(broadcastable(&[2, 1], &[1, 5]));
    assert!(broadcastable(&[], &[4, 5]));
    assert!(broadcastable(&[], &[]));
    assert!(broadcastable(&[0, 3], &[1, 3]));
    assert!(!broadcastable(&[2, 2], &[3]));
    assert!(!broadcastable(&[2, 3], &[3, 2]));
    assert!(!broadcastable(&[5, 2, 2], &[4, 1, 2]));
    assert!(!broadcastable(&[0, 3], &[2, 3]));
}

#[test]
fn shapes_that_fit_can_be_added() {
    let shapes: [&[usize]; 6] = [&[], &[2], &[3], &[2, 2], &[3, 1, 2], &[1, 3]];
    for lhs in shapes {
        for rhs in shapes {
            let a = Arr(ArrayD::ones(lhs.to_vec()));
            let b = Arr(ArrayD::ones(rhs.to_vec()));
            if a.addable(&b) {
                let sum = a.add(&b);
                assert!(sum.0.iter().all(|v| *v == 2.0));
                assert!(broadcastable(sum.0.shape(), lhs) && broadcastable(sum.0.shape(), rhs));
            } else {
                assert!(a.0.broadcast(rhs.to_vec()).is_none());
                assert!(b.0.broadcast(lhs.to_vec()).is_none());
            }
        }
    }
}
