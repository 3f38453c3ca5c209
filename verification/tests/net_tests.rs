use std::cell::Cell;

use auto_diff::AutoDiffError;
use auto_diff::collection::keyed_map::KeyedMap;
use auto_diff::compute_graph::Net;
use auto_diff::op::{Mul, Op, OpKind};
use auto_diff::tensor::gen_tensor::GenTensor;
use auto_diff::var::Var;

#[test]
fn mul() {
    let mut net = Net::<f64>::new();
    let a = Var::new(&mut net, &[2., 3., 4., 5.], &[2, 2]);
    let b = Var::new(&mut net, &[1., 2., 3., 4.], &[2, 2]);
    let c = a.mul(&mut net, &b).unwrap();
    assert_eq!(c.val(&net), GenTensor::new_raw(&[2., 6., 12., 20.], &[2, 2]));
    c.bp(&mut net).unwrap();
    assert_eq!(a.grad(&net).unwrap(), GenTensor::new_raw(&[1., 2., 3., 4.], &[2, 2]));
    assert_eq!(b.grad(&net).unwrap(), GenTensor::new_raw(&[2., 3., 4., 5.], &[2, 2]));
}

// Two data nodes A, B and one operator producing C = A * B; two more data
// nodes (C, D) and a second operator producing E = C * D. Marking A, B, D as
// inputs and evaluating fires the first operator strictly before the second
// and leaves the ready set empty; a backward pass seeded at E records
// gradients at A, B, D.
#[test]
fn two_op_forward_backward() {
    let mut net = Net::<f64>::new();
    let a = net.add_tensor(GenTensor::new_raw(&[2., 3.], &[2]));
    let b = net.add_tensor(GenTensor::new_raw(&[5., 7.], &[2]));
    let c = net.add_tensor(GenTensor::new_raw(&[0., 0.], &[2]));
    let d = net.add_tensor(GenTensor::new_raw(&[11., 13.], &[2]));
    let e = net.add_tensor(GenTensor::new_raw(&[0., 0.], &[2]));
    net.connect(&[a, b], Op::new(OpKind::Mul(Mul::new())), &[c]);
    net.connect(&[c, d], Op::new(OpKind::Mul(Mul::new())), &[e]);
    net.set_mark(&a);
    net.set_mark(&b);
    net.set_mark(&d);
    net.eval().unwrap();
    assert_eq!(net.get_tensor(&c).unwrap().get_raw(), vec![10., 21.]);
    assert_eq!(net.get_tensor(&e).unwrap().get_raw(), vec![110., 273.]);

    let mut seed: KeyedMap<GenTensor<f64>> = KeyedMap::new();
    seed.insert(e, GenTensor::new_raw(&[1., 1.], &[2]));
    net.bptt(&seed).unwrap();
    // gradient of E with respect to each leaf, by the chain rule
    assert_eq!(net.gradient_of(&a).unwrap().get_raw(), vec![5. * 11., 7. * 13.]);
    assert_eq!(net.gradient_of(&b).unwrap().get_raw(), vec![2. * 11., 3. * 13.]);
    assert_eq!(net.gradient_of(&d).unwrap().get_raw(), vec![10., 21.]);
    // the intermediate carries only the transit gradient
    assert_eq!(net.gradient_of(&c).unwrap().get_raw(), vec![11., 13.]);
}

#[test]
fn eval_incomplete_reports_leftover() {
    let mut net = Net::<f64>::new();
    let a = net.add_tensor(GenTensor::new_raw(&[1.], &[1]));
    let b = net.add_tensor(GenTensor::new_raw(&[2.], &[1]));
    let c = net.add_tensor(GenTensor::new_raw(&[0.], &[1]));
    net.connect(&[a, b], Op::new(OpKind::Mul(Mul::new())), &[c]);
    // with only one of the two inputs marked, the operator can never fire and
    // the marked node is the exact leftover
    net.set_mark(&a);
    let left = net.eval().unwrap_err();
    assert_eq!(left.len(), 1);
    assert!(left.contains(&a));
}

#[test]
fn gradient_missing() {
    let mut net = Net::<f64>::new();
    let a = net.add_tensor(GenTensor::new_raw(&[1.], &[1]));
    assert!(matches!(net.gradient_of(&a), Err(AutoDiffError::NoGradient)));
    let v = Var::new(&mut net, &[1.], &[1]);
    assert!(matches!(v.grad(&net), Err(AutoDiffError::NoGradient)));
}

#[test]
fn stale_handle_rejected() {
    let mut net = Net::<f64>::new();
    let v = Var::new(&mut net, &[1.], &[1]);
    let h = v.get_id();
    net.del_var(&v);
    assert!(matches!(net.get_tensor(&h), Err(AutoDiffError::InvalidHandle)));
    assert!(matches!(
        net.set_tensor(&h, GenTensor::new()),
        Err(AutoDiffError::InvalidHandle)
    ));
}

#[test]
fn bptt_scale_seeds_sinks() {
    let mut net = Net::<f64>::new();
    let a = net.add_tensor(GenTensor::new_raw(&[2., 3.], &[2]));
    let b = net.add_tensor(GenTensor::new_raw(&[5., 7.], &[2]));
    let c = net.add_tensor(GenTensor::new_raw(&[0., 0.], &[2]));
    net.connect(&[a, b], Op::new(OpKind::Mul(Mul::new())), &[c]);
    net.bptt_scale(2.).unwrap();
    assert_eq!(net.gradient_of(&c).unwrap().get_raw(), vec![2., 2.]);
    assert_eq!(net.gradient_of(&a).unwrap().get_raw(), vec![10., 14.]);
    assert_eq!(net.gradient_of(&b).unwrap().get_raw(), vec![4., 6.]);
}

#[test]
fn composite_markers() {
    let mut net = Net::<f64>::new();
    let o1 = net.init_op(Op::new(OpKind::Mul(Mul::new())));
    let o2 = net.init_op(Op::new(OpKind::Mul(Mul::new())));
    let group = net.init_func(&[o1, o2]);
    assert_eq!(net.get_sub_func(group), vec![o1, o2]);
    assert_eq!(net.get_sub_func(o1), vec![]);
}

#[test]
fn marks_toggle() {
    let mut net = Net::<f64>::new();
    let a = net.add_tensor(GenTensor::new_raw(&[1.], &[1]));
    net.set_mark(&a);
    net.unset_mark(&a);
    // with no marked input nothing fires and nothing is left over
    assert!(net.eval().is_ok());
}

#[test]
fn op_surface() {
    let op = Op::new(OpKind::Mul(Mul::new()));
    assert_eq!(op.get_name(), "Mul");
    assert_eq!(Op::nop().get_name(), "Nop");
    assert!(matches!(op.get(), OpKind::Mul(_)));
    let vals: Vec<GenTensor<f64>> = op.get_values();
    assert_eq!(vals.len(), 0);
    let grads: Vec<GenTensor<f64>> = op.get_grads();
    assert_eq!(grads.len(), 0);
    let ins =
        vec![GenTensor::<f64>::new_raw(&[2.], &[1]), GenTensor::<f64>::new_raw(&[3.], &[1])];
    let outs = op.apply(&ins);
    assert_eq!(outs.len(), 1);
    assert_eq!(outs[0].get_raw(), vec![6.]);
    let nothing = Op::nop().apply(&ins);
    assert_eq!(nothing.len(), 0);
}

#[test]
fn init_var_and_set_val() {
    let mut net = Net::<f64>::new();
    let mut v = Var::new(&mut net, &[], &[]);
    net.init_var(&mut v);
    assert_eq!(v.val(&net).numel(), 0);
    let w = auto_diff::var::VarInner::new_tensor(&mut net, GenTensor::new_raw(&[4.], &[1]));
    assert_eq!(w.val(&net).get_raw(), vec![4.]);
    w.set_val(&mut net, GenTensor::new_raw(&[5.], &[1]));
    assert_eq!(w.val(&net).get_raw(), vec![5.]);
    let e = auto_diff::var::VarInner::eye(&mut net, 2, 2);
    assert_eq!(e.val(&net).get_raw(), vec![1., 0., 0., 1.]);
}

#[test]
fn backward_incomplete() {
    let mut net = Net::<f64>::new();
    // one operator with two outputs: seeding only one output gradient leaves
    // the backward walk stuck, and the seed is the exact leftover
    let a = net.add_tensor(GenTensor::new_raw(&[1.], &[1]));
    let c = net.add_tensor(GenTensor::new_raw(&[0.], &[1]));
    let e = net.add_tensor(GenTensor::new_raw(&[0.], &[1]));
    net.connect(&[a], Op::new(OpKind::Mul(Mul::new())), &[c, e]);
    let mut seed: KeyedMap<GenTensor<f64>> = KeyedMap::new();
    seed.insert(c, GenTensor::new_raw(&[1.], &[1]));
    let left = net.bptt(&seed).unwrap_err();
    assert_eq!(left.len(), 1);
    assert!(left.contains(&c));
}

#[test]
fn visit_ops_and_data() {
    let mut net = Net::<f64>::new();
    let a = net.add_tensor(GenTensor::new_raw(&[1.], &[1]));
    let b = net.add_tensor(GenTensor::new_raw(&[2.], &[1]));
    let c = net.add_tensor(GenTensor::new_raw(&[0.], &[1]));
    let opid = net.connect(&[a, b], Op::new(OpKind::Mul(Mul::new())), &[c]);
    let seen = Cell::new(0usize);
    net.visit_op(|_o| seen.set(seen.get() + 1), None, None);
    assert_eq!(seen.get(), 1);
    seen.set(0);
    net.visit_op(|_o| seen.set(seen.get() + 1), None, Some(vec![opid]));
    assert_eq!(seen.get(), 0);
    seen.set(0);
    net.visit_op(|_o| seen.set(seen.get() + 1), Some(vec![opid]), None);
    assert_eq!(seen.get(), 1);
    let tensors = Cell::new(0usize);
    net.visit_data(|_t| tensors.set(tensors.get() + 1));
    assert_eq!(tensors.get(), 3);
}
