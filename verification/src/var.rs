//! Variables: lightweight views onto one network's data nodes. A variable
//! holds only the handle of its tensor slot; the network owns the graph and
//! every value, and each operation takes the owning network explicitly.

use vstd::prelude::*;
use crate::AutoDiffError;
use crate::collection::generational_index::NetIndex;
use crate::collection::graph::{Graph, walk_outcome_exists};
use crate::collection::keyed_map::KeyedMap;
use crate::compute_graph::Net;
use crate::op::{Mul, Op, OpKind};
use crate::tensor::gen_tensor::GenTensor;

verus! {

/// The inner variable state: the handle of the tensor slot it names.
pub struct VarInner {
    id: NetIndex,
}

impl VarInner {
    /// The handle of the named tensor slot.
    pub closed spec fn id(&self) -> NetIndex {
        self.id
    }

    /// The handle of the named tensor slot.
    pub fn get_id(&self) -> (r: NetIndex)
        ensures
            r == self.id(),
    {
        self.id
    }

    pub(crate) fn set_id(&mut self, id: NetIndex)
        ensures
            final(self).id() == id,
    {
        self.id = id;
    }

    /// A variable over a fresh data node holding the given values in the
    /// given shape.
    pub fn new<T: num_traits::Float>(net: &mut Net<T>, input: &[T], dim: &[usize]) -> (r: VarInner)
        requires
            old(net).wf(),
        ensures
            final(net).wf(),
            final(net).data_live(r.id()),
            !old(net).data_live(r.id()),
            final(net).tensor_at(r.id()).data() == input@,
            final(net).tensor_at(r.id()).shape() == dim@,
            final(net).graph_shape() == crate::collection::graph::Graph::add_data_shape(
                old(net).graph_shape(),
                r.id(),
            ),
    {
        let t = GenTensor::new_raw(input, dim);
        let id = net.add_tensor(t);
        VarInner { id }
    }

    /// A variable over a fresh data node holding the given tensor.
    pub fn new_net_tensor<T: num_traits::Float>(net: &mut Net<T>, tensor: GenTensor<T>) -> (r:
        VarInner)
        requires
            old(net).wf(),
        ensures
            final(net).wf(),
            final(net).data_live(r.id()),
            !old(net).data_live(r.id()),
            final(net).tensor_at(r.id()) == tensor,
    {
        let id = net.add_tensor(tensor);
        VarInner { id }
    }

    /// A variable over a fresh data node holding the given tensor.
    pub fn new_tensor<T: num_traits::Float>(net: &mut Net<T>, tensor: GenTensor<T>) -> (r:
        VarInner)
        requires
            old(net).wf(),
        ensures
            final(net).wf(),
            final(net).data_live(r.id()),
            !old(net).data_live(r.id()),
            final(net).tensor_at(r.id()) == tensor,
    {
        Self::new_net_tensor(net, tensor)
    }

    /// A variable over a fresh identity-like matrix of shape `[n, m]`.
    pub fn eye<T: num_traits::Float>(net: &mut Net<T>, n: usize, m: usize) -> (r: VarInner)
        requires
            old(net).wf(),
            n * m <= usize::MAX,
        ensures
            final(net).wf(),
            final(net).data_live(r.id()),
            !old(net).data_live(r.id()),
            final(net).tensor_at(r.id()).shape().len() == 2,
            final(net).tensor_at(r.id()).shape()[0] == n,
            final(net).tensor_at(r.id()).shape()[1] == m,
            final(net).tensor_at(r.id()).data().len() == n * m,
    {
        let t = GenTensor::eye(n, m);
        let id = net.add_tensor(t);
        VarInner { id }
    }

    /// The variable's current tensor value, copied out.
    pub fn val<T: num_traits::Float>(&self, net: &Net<T>) -> (r: GenTensor<T>)
        requires
            net.wf(),
            net.data_live(self.id()),
        ensures
            r.data() == net.tensor_at(self.id()).data(),
            r.shape() == net.tensor_at(self.id()).shape(),
    {
        match net.get_tensor(&self.id) {
            Ok(t) => t,
            Err(_) => {
                proof {
                    assert(false);
                }
                GenTensor::new()
            },
        }
    }

    /// Overwrite the variable's tensor value.
    pub fn set_val<T: num_traits::Float>(&self, net: &mut Net<T>, val: GenTensor<T>)
        requires
            old(net).wf(),
            old(net).data_live(self.id()),
        ensures
            final(net).wf(),
            final(net).tensor_at(self.id()) == val,
            final(net).graph_shape() == old(net).graph_shape(),
    {
        let set = net.set_tensor(&self.id, val);
        match set {
            Ok(_) => {
            },
            Err(_) => {
                proof {
                    assert(false);
                }
            },
        }
    }

    /// The gradient the last backward pass recorded for this variable;
    /// `NoGradient` when none was recorded.
    pub fn grad<T: num_traits::Float>(&self, net: &Net<T>) -> (r: Result<
        GenTensor<T>,
        AutoDiffError,
    >)
        requires
            net.wf(),
        ensures
            r is Ok <==> net.grads().dom().contains(self.id()),
            r is Ok ==> r->Ok_0.data() == net.grads()[self.id()].data() && r->Ok_0.shape()
                == net.grads()[self.id()].shape(),
            r is Err ==> r->Err_0 == AutoDiffError::NoGradient,
    {
        net.gradient_of(&self.id)
    }

    /// Run a backward pass seeded with a gradient of ones at this variable;
    /// `WalkIncomplete` when the backward walk could not drain.
    pub fn bp<T: num_traits::Float>(&self, net: &mut Net<T>) -> (r: Result<(), AutoDiffError>)
        requires
            old(net).wf(),
            old(net).data_live(self.id()),
        ensures
            final(net).wf(),
            final(net).graph_shape() == old(net).graph_shape(),
            final(net).marks() == old(net).marks(),
            forall|h: NetIndex|
                (#[trigger] final(net).data_live(h)) <==> old(net).data_live(h),
            forall|h: NetIndex|
                old(net).data_live(h) ==> #[trigger] final(net).tensor_at(h) == old(net).tensor_at(
                    h,
                ),
            forall|d: NetIndex|
                old(net).graph_shape().data.contains(d) ==> #[trigger] final(net).grads().dom().contains(d),
            r is Ok ==> walk_outcome_exists(
                old(net).graph_shape(),
                false,
                Set::<NetIndex>::empty().insert(self.id()),
                Set::<NetIndex>::empty(),
            ),
            r is Err ==> exists|left: Set<NetIndex>|
                #[trigger] walk_outcome_exists(
                    old(net).graph_shape(),
                    false,
                    Set::<NetIndex>::empty().insert(self.id()),
                    left,
                ) && left != Set::<NetIndex>::empty(),
            r is Err ==> r->Err_0 == AutoDiffError::WalkIncomplete,
    {
        let seed = self.val(net).ones_like();
        let mut job: KeyedMap<GenTensor<T>> = KeyedMap::new();
        job.insert(self.id, seed);
        proof {
            assert(job.map().dom() =~= Set::<NetIndex>::empty().insert(self.id));
        }
        match net.bptt(&job) {
            Ok(_) => Ok(()),
            Err(left) => {
                proof {
                    assert(walk_outcome_exists(
                        old(net).graph_shape(),
                        false,
                        Set::<NetIndex>::empty().insert(self.id),
                        left.set(),
                    ));
                }
                Err(AutoDiffError::WalkIncomplete)
            },
        }
    }

    /// Multiply this variable element-wise with `other`: evaluate the product
    /// immediately, store it in a fresh data node, and wire a multiplication
    /// operator from the two operands to the result so that backward passes
    /// propagate through it.
    pub fn mul<T: num_traits::Float>(&self, net: &mut Net<T>, other: &VarInner) -> (r: Result<
        VarInner,
        AutoDiffError,
    >)
        requires
            old(net).wf(),
            old(net).data_live(self.id()),
            old(net).data_live(other.id()),
            old(net).tensor_at(self.id()).data().len() == old(net).tensor_at(
                other.id(),
            ).data().len(),
        ensures
            final(net).wf(),
            r is Ok,
            r is Ok ==> final(net).data_live(r->Ok_0.id()) && !old(net).data_live(r->Ok_0.id()),
            r is Ok ==> final(net).tensor_at(r->Ok_0.id()).shape() == old(net).tensor_at(
                self.id(),
            ).shape() && final(net).tensor_at(r->Ok_0.id()).data().len() == old(net).tensor_at(
                self.id(),
            ).data().len(),
            r is Ok ==> forall|h2: NetIndex|
                h2 != r->Ok_0.id() ==> ((#[trigger] final(net).data_live(h2)) <==> old(net).data_live(h2)),
            r is Ok ==> forall|h2: NetIndex|
                h2 != r->Ok_0.id() && old(net).data_live(h2) ==> #[trigger] final(net).tensor_at(h2)
                    == old(net).tensor_at(h2),
            // a fresh multiplication operator is wired from the two operands
            // to the fresh result node
            r is Ok ==> exists|opid: NetIndex|
                (#[trigger] final(net).ops_live(opid)) && !old(net).ops_live(opid) && final(net).op_at(opid).kind() is Mul && final(net).graph_shape() == Graph::connect_shape(
                    Graph::add_op_shape(
                        Graph::add_data_shape(old(net).graph_shape(), r->Ok_0.id()),
                        opid,
                    ),
                    seq![self.id(), other.id()],
                    seq![r->Ok_0.id()],
                    opid,
                ),
            final(net).marks() == old(net).marks(),
            final(net).grads() == old(net).grads(),
    {
        let a = self.val(net);
        let b = other.val(net);
        let result = a.mul(&b);
        let rid = net.add_tensor(result);
        let mut inputs: Vec<NetIndex> = Vec::new();
        inputs.push(self.id);
        inputs.push(other.id);
        let mut outputs: Vec<NetIndex> = Vec::new();
        outputs.push(rid);
        let opid = net.connect(
            inputs.as_slice(),
            Op::new(OpKind::Mul(Mul::new())),
            outputs.as_slice(),
        );
        proof {
            assert(inputs@ =~= seq![self.id, other.id]);
            assert(outputs@ =~= seq![rid]);
        }
        Ok(VarInner { id: rid })
    }
}

/// A variable: the client-facing view onto one data node of a network.
pub struct Var {
    v: VarInner,
}

impl Var {
    /// The handle of the named tensor slot.
    pub closed spec fn id(&self) -> NetIndex {
        self.v.id()
    }

    /// The handle of the named tensor slot.
    pub fn get_id(&self) -> (r: NetIndex)
        ensures
            r == self.id(),
    {
        self.v.get_id()
    }

    pub(crate) fn set_id(&mut self, id: NetIndex)
        ensures
            final(self).id() == id,
    {
        self.v.set_id(id);
    }

    /// A variable over a fresh data node holding the given values in the
    /// given shape.
    pub fn new<T: num_traits::Float>(net: &mut Net<T>, input: &[T], dim: &[usize]) -> (r: Var)
        requires
            old(net).wf(),
        ensures
            final(net).wf(),
            final(net).data_live(r.id()),
            !old(net).data_live(r.id()),
            final(net).tensor_at(r.id()).data() == input@,
            final(net).tensor_at(r.id()).shape() == dim@,
    {
        Var { v: VarInner::new(net, input, dim) }
    }

    /// The variable's current tensor value, copied out.
    pub fn val<T: num_traits::Float>(&self, net: &Net<T>) -> (r: GenTensor<T>)
        requires
            net.wf(),
            net.data_live(self.id()),
        ensures
            r.data() == net.tensor_at(self.id()).data(),
            r.shape() == net.tensor_at(self.id()).shape(),
    {
        self.v.val(net)
    }

    /// The gradient the last backward pass recorded for this variable;
    /// `NoGradient` when none was recorded.
    pub fn grad<T: num_traits::Float>(&self, net: &Net<T>) -> (r: Result<
        GenTensor<T>,
        AutoDiffError,
    >)
        requires
            net.wf(),
        ensures
            r is Ok <==> net.grads().dom().contains(self.id()),
            r is Ok ==> r->Ok_0.data() == net.grads()[self.id()].data() && r->Ok_0.shape()
                == net.grads()[self.id()].shape(),
            r is Err ==> r->Err_0 == AutoDiffError::NoGradient,
    {
        self.v.grad(net)
    }

    /// Run a backward pass seeded with a gradient of ones at this variable;
    /// `WalkIncomplete` when the backward walk could not drain.
    pub fn bp<T: num_traits::Float>(&self, net: &mut Net<T>) -> (r: Result<(), AutoDiffError>)
        requires
            old(net).wf(),
            old(net).data_live(self.id()),
        ensures
            final(net).wf(),
            final(net).graph_shape() == old(net).graph_shape(),
            final(net).marks() == old(net).marks(),
            forall|h: NetIndex|
                (#[trigger] final(net).data_live(h)) <==> old(net).data_live(h),
            forall|h: NetIndex|
                old(net).data_live(h) ==> #[trigger] final(net).tensor_at(h) == old(net).tensor_at(
                    h,
                ),
            forall|d: NetIndex|
                old(net).graph_shape().data.contains(d) ==> #[trigger] final(net).grads().dom().contains(d),
            r is Ok ==> walk_outcome_exists(
                old(net).graph_shape(),
                false,
                Set::<NetIndex>::empty().insert(self.id()),
                Set::<NetIndex>::empty(),
            ),
            r is Err ==> exists|left: Set<NetIndex>|
                #[trigger] walk_outcome_exists(
                    old(net).graph_shape(),
                    false,
                    Set::<NetIndex>::empty().insert(self.id()),
                    left,
                ) && left != Set::<NetIndex>::empty(),
            r is Err ==> r->Err_0 == AutoDiffError::WalkIncomplete,
    {
        self.v.bp(net)
    }

    /// Multiply this variable element-wise with `other` (see
    /// [`VarInner::mul`]).
    pub fn mul<T: num_traits::Float>(&self, net: &mut Net<T>, other: &Var) -> (r: Result<
        Var,
        AutoDiffError,
    >)
        requires
            old(net).wf(),
            old(net).data_live(self.id()),
            old(net).data_live(other.id()),
            old(net).tensor_at(self.id()).data().len() == old(net).tensor_at(
                other.id(),
            ).data().len(),
        ensures
            final(net).wf(),
            r is Ok,
            r is Ok ==> final(net).data_live(r->Ok_0.id()) && !old(net).data_live(r->Ok_0.id()),
            r is Ok ==> final(net).tensor_at(r->Ok_0.id()).shape() == old(net).tensor_at(
                self.id(),
            ).shape() && final(net).tensor_at(r->Ok_0.id()).data().len() == old(net).tensor_at(
                self.id(),
            ).data().len(),
            r is Ok ==> forall|h2: NetIndex|
                h2 != r->Ok_0.id() ==> ((#[trigger] final(net).data_live(h2)) <==> old(net).data_live(h2)),
            r is Ok ==> forall|h2: NetIndex|
                h2 != r->Ok_0.id() && old(net).data_live(h2) ==> #[trigger] final(net).tensor_at(h2)
                    == old(net).tensor_at(h2),
            r is Ok ==> exists|opid: NetIndex|
                (#[trigger] final(net).ops_live(opid)) && !old(net).ops_live(opid) && final(net).op_at(opid).kind() is Mul && final(net).graph_shape() == Graph::connect_shape(
                    Graph::add_op_shape(
                        Graph::add_data_shape(old(net).graph_shape(), r->Ok_0.id()),
                        opid,
                    ),
                    seq![self.id(), other.id()],
                    seq![r->Ok_0.id()],
                    opid,
                ),
            final(net).marks() == old(net).marks(),
            final(net).grads() == old(net).grads(),
    {
        match self.v.mul(net, &other.v) {
            Ok(inner) => Ok(Var { v: inner }),
            Err(e) => Err(e),
        }
    }
}

} // verus!
