//! The computation network: one arena of tensors, one arena of operators and
//! one dependency graph, bound into the forward/backward engine. Forward
//! evaluation and backward gradient accumulation both drive the graph's
//! readiness walk — once forward, once in reverse.

use vstd::prelude::*;
use crate::AutoDiffError;
use crate::collection::generational_index::{GenIndex, NetIndex};
use crate::collection::graph::{
    Graph, GraphShape, IdSet, WalkStep, walk_outcome, walk_outcome_exists, walk_produced_before,
    walk_sched_valid,
};
use crate::collection::keyed_map::KeyedMap;
use crate::op::Op;
use crate::tensor::gen_tensor::GenTensor;
use crate::var::Var;

verus! {

/// The computation network.
pub struct Net<T> {
    data: GenIndex<GenTensor<T>>,
    ops: GenIndex<Op>,
    funcs: KeyedMap<Vec<NetIndex>>,
    set_mark: IdSet,
    graph: Graph,
    data_grad: KeyedMap<GenTensor<T>>,
}

impl<T> Net<T> {
    /// The dependency graph's abstract shape.
    pub closed spec fn graph_shape(&self) -> GraphShape {
        self.graph@
    }

    /// The data nodes marked as externally supplied: the starting set of
    /// forward evaluation.
    pub closed spec fn marks(&self) -> Set<NetIndex> {
        self.set_mark.set()
    }

    /// `h` refers to a stored tensor.
    pub closed spec fn data_live(&self, h: NetIndex) -> bool {
        self.data.live(h)
    }

    /// The tensor behind `h` (meaningful only when `data_live(h)`).
    pub closed spec fn tensor_at(&self, h: NetIndex) -> GenTensor<T> {
        self.data.at(h)
    }

    /// `h` refers to a stored operator.
    pub closed spec fn ops_live(&self, h: NetIndex) -> bool {
        self.ops.live(h)
    }

    /// The accumulated gradients, by data node handle.
    pub closed spec fn grads(&self) -> Map<NetIndex, GenTensor<T>> {
        self.data_grad.map()
    }

    /// The composite markers' constituent lists, by operator handle.
    pub closed spec fn funcs_map(&self) -> Map<NetIndex, Vec<NetIndex>> {
        self.funcs.map()
    }

    /// The containers are internally consistent.
    pub closed spec fn swf(&self) -> bool {
        &&& self.data.wf()
        &&& self.ops.wf()
        &&& self.funcs.wf()
        &&& self.set_mark.wf()
        &&& self.graph.wf()
        &&& self.data_grad.wf()
    }

    /// Well-formed: consistent containers, a well-formed graph, the graph's
    /// node sets mirroring the live arena handles, and marks only on
    /// registered data nodes.
    pub open spec fn wf(&self) -> bool {
        &&& self.swf()
        &&& self.graph_shape().wf()
        &&& forall|h: NetIndex|
            (#[trigger] self.graph_shape().data.contains(h)) <==> self.data_live(h)
        &&& forall|h: NetIndex| (#[trigger] self.graph_shape().ops.contains(h)) <==> self.ops_live(h)
        &&& self.marks().subset_of(self.graph_shape().data)
    }
}

impl<T: num_traits::Float> Net<T> {
    /// An empty network.
    pub fn new() -> (r: Net<T>)
        ensures
            r.wf(),
            r.graph_shape().data == Set::<NetIndex>::empty(),
            r.graph_shape().ops == Set::<NetIndex>::empty(),
            r.marks() == Set::<NetIndex>::empty(),
            r.grads() == Map::<NetIndex, GenTensor<T>>::empty(),
    {
        Net {
            data: GenIndex::new(),
            ops: GenIndex::new(),
            funcs: KeyedMap::new(),
            set_mark: IdSet::new(),
            graph: Graph::new(),
            data_grad: KeyedMap::new(),
        }
    }

    /// The tensor arena.
    pub fn get_data(&self) -> (r: &GenIndex<GenTensor<T>>)
        ensures
            forall|h: NetIndex| (#[trigger] r.live(h)) == self.data_live(h),
            forall|h: NetIndex| self.data_live(h) ==> #[trigger] r.at(h) == self.tensor_at(h),
            self.wf() ==> r.wf(),
    {
        &self.data
    }

    /// The tensor arena, mutably. What the caller does with it is reflected
    /// in the network's tensors; the graph is untouched.
    pub fn get_data_mut(&mut self) -> (r: &mut GenIndex<GenTensor<T>>)
        ensures
            *r == old(self).data_arena(),
            old(self).wf() ==> (*r).wf(),
            final(self).data_arena() == *final(r),
            final(self).graph_shape() == old(self).graph_shape(),
            final(self).marks() == old(self).marks(),
            final(self).grads() == old(self).grads(),
            final(self).funcs_map() == old(self).funcs_map(),
    {
        &mut self.data
    }

    /// The tensor arena as one value.
    pub closed spec fn data_arena(&self) -> GenIndex<GenTensor<T>> {
        self.data
    }

    /// The operator arena as one value.
    pub closed spec fn ops_arena(&self) -> GenIndex<Op> {
        self.ops
    }

    /// The operator stored under `h` (meaningful only when `ops_live(h)`).
    pub closed spec fn op_at(&self, h: NetIndex) -> Op {
        self.ops.at(h)
    }

    /// The gradient table built by the last backward pass.
    pub fn get_grad(&self) -> (r: &KeyedMap<GenTensor<T>>)
        ensures
            r.map() == self.grads(),
            self.wf() ==> r.wf(),
    {
        &self.data_grad
    }

    /// Store `t` as a fresh data node: insert it into the arena and register
    /// the matching graph node with empty adjacency.
    pub fn add_tensor(&mut self, t: GenTensor<T>) -> (h: NetIndex)
        requires
            old(self).wf(),
        ensures
            final(self).wf(),
            !old(self).data_live(h),
            final(self).data_live(h),
            final(self).tensor_at(h) == t,
            GenIndex::inserted(old(self).data_arena(), final(self).data_arena(), h, t),
            final(self).graph_shape() == Graph::add_data_shape(old(self).graph_shape(), h),
            forall|h2: NetIndex|
                h2 != h ==> ((#[trigger] final(self).data_live(h2)) <==> old(self).data_live(h2)),
            forall|h2: NetIndex|
                h2 != h && old(self).data_live(h2) ==> #[trigger] final(self).tensor_at(h2) == old(self).tensor_at(h2),
            forall|h2: NetIndex| (#[trigger] final(self).ops_live(h2)) <==> old(self).ops_live(h2),
            final(self).marks() == old(self).marks(),
            final(self).grads() == old(self).grads(),
            final(self).funcs_map() == old(self).funcs_map(),
    {
        let h = self.data.insert(t);
        let ghost mid = *self;
        let added = self.graph.add_data(&h);
        proof {
            assert(self.data_arena() == mid.data_arena());
        }
        match added {
            Ok(_) => {
            },
            Err(_) => {
                proof {
                    assert(old(self).data_live(h) == old(self).graph_shape().data.contains(h));
                    assert(false);
                }
            },
        }
        h
    }

    /// Insert an empty tensor slot and register it as a data node, handing
    /// the fresh handle to `var`.
    pub fn init_var(&mut self, var: &mut Var)
        requires
            old(self).wf(),
        ensures
            final(self).wf(),
            !old(self).data_live(final(var).id()),
            final(self).data_live(final(var).id()),
            final(self).graph_shape() == Graph::add_data_shape(
                old(self).graph_shape(),
                final(var).id(),
            ),
            final(self).tensor_at(final(var).id()).data().len() == 0,
            final(self).tensor_at(final(var).id()).shape().len() == 0,
            GenIndex::inserted(
                old(self).data_arena(),
                final(self).data_arena(),
                final(var).id(),
                final(self).tensor_at(final(var).id()),
            ),
            final(self).marks() == old(self).marks(),
            final(self).grads() == old(self).grads(),
            final(self).funcs_map() == old(self).funcs_map(),
    {
        let h = self.add_tensor(GenTensor::new());
        var.set_id(h);
    }

    /// Remove a variable's data node: drop the tensor from the arena, prune
    /// the node from the graph, and forget any input mark on it.
    pub fn del_var(&mut self, var: &Var)
        requires
            old(self).wf(),
            old(self).data_live(var.id()),
        ensures
            final(self).wf(),
            !final(self).data_live(var.id()),
            final(self).graph_shape() == Graph::del_data_shape(old(self).graph_shape(), var.id()),
            final(self).marks() == old(self).marks().remove(var.id()),
            GenIndex::removed(old(self).data_arena(), final(self).data_arena(), var.id()),
            forall|h2: NetIndex|
                h2 != var.id() ==> ((#[trigger] final(self).data_live(h2)) <==> old(self).data_live(h2)),
            forall|h2: NetIndex| (#[trigger] final(self).ops_live(h2)) <==> old(self).ops_live(h2),
            final(self).grads() == old(self).grads(),
            final(self).funcs_map() == old(self).funcs_map(),
    {
        let h = var.get_id();
        let removed = self.data.remove(&h);
        let ghost mid = *self;
        proof {
            assert(GenIndex::removed(old(self).data_arena(), mid.data_arena(), var.id()));
        }
        match removed {
            Ok(_) => {
            },
            Err(_) => {
                proof {
                    assert(false);
                }
            },
        }
        proof {
            assert(self.data_arena() == mid.data_arena());
        }
        let deleted = self.graph.del_data(&h);
        match deleted {
            Ok(_) => {
            },
            Err(_) => {
                proof {
                    assert(false);
                }
            },
        }
        self.set_mark.remove(&h);
    }

    /// Insert an operator into the network: store it in the arena, register
    /// the matching graph node, and give it an empty constituent list.
    pub fn init_op(&mut self, op: Op) -> (h: NetIndex)
        requires
            old(self).wf(),
        ensures
            final(self).wf(),
            !old(self).ops_live(h),
            final(self).ops_live(h),
            final(self).graph_shape() == Graph::add_op_shape(old(self).graph_shape(), h),
            forall|h2: NetIndex|
                (#[trigger] final(self).data_live(h2)) <==> old(self).data_live(h2),
            forall|h2: NetIndex|
                old(self).data_live(h2) ==> #[trigger] final(self).tensor_at(h2) == old(self).tensor_at(h2),
            final(self).marks() == old(self).marks(),
            final(self).grads() == old(self).grads(),
            final(self).op_at(h) == op,
            GenIndex::inserted(old(self).ops_arena(), final(self).ops_arena(), h, op),
            final(self).funcs_map().dom().contains(h),
            final(self).funcs_map()[h]@ == Seq::<NetIndex>::empty(),
            forall|k: NetIndex|
                k != h ==> ((#[trigger] final(self).funcs_map().dom().contains(k)) <==> old(self).funcs_map().dom().contains(k)),
            forall|k: NetIndex|
                k != h && old(self).funcs_map().dom().contains(k)
                    ==> #[trigger] final(self).funcs_map()[k] == old(self).funcs_map()[k],
    {
        let h = self.ops.insert(op);
        let ghost mid = *self;
        let added = self.graph.add_op(&h);
        match added {
            Ok(_) => {
            },
            Err(_) => {
                proof {
                    assert(false);
                }
            },
        }
        proof {
            assert(self.ops_arena() == mid.ops_arena());
            assert(self.funcs_map() == old(self).funcs_map());
        }
        let fresh_list: Vec<NetIndex> = Vec::new();
        self.funcs.insert(h, fresh_list);
        h
    }

    /// Insert a composite marker: a do-nothing operator node that records the
    /// given constituent operator handles without creating graph edges for
    /// them.
    pub fn init_func(&mut self, funcs: &[NetIndex]) -> (h: NetIndex)
        requires
            old(self).wf(),
        ensures
            final(self).wf(),
            !old(self).ops_live(h),
            final(self).ops_live(h),
            final(self).graph_shape() == Graph::add_op_shape(old(self).graph_shape(), h),
            final(self).op_at(h).kind() is Nop,
            final(self).funcs_map().dom().contains(h),
            final(self).funcs_map()[h]@ == funcs@,
            forall|k: NetIndex|
                k != h ==> ((#[trigger] final(self).funcs_map().dom().contains(k)) <==> old(self).funcs_map().dom().contains(k)),
            forall|k: NetIndex|
                k != h && old(self).funcs_map().dom().contains(k)
                    ==> #[trigger] final(self).funcs_map()[k] == old(self).funcs_map()[k],
            forall|h2: NetIndex|
                (#[trigger] final(self).data_live(h2)) <==> old(self).data_live(h2),
            forall|h2: NetIndex|
                old(self).data_live(h2) ==> #[trigger] final(self).tensor_at(h2) == old(self).tensor_at(h2),
            final(self).marks() == old(self).marks(),
            final(self).grads() == old(self).grads(),
    {
        let h = self.ops.insert(Op::nop());
        let ghost mid = *self;
        let added = self.graph.add_op(&h);
        match added {
            Ok(_) => {
            },
            Err(_) => {
                proof {
                    assert(false);
                }
            },
        }
        proof {
            assert(self.ops_arena() == mid.ops_arena());
            assert(self.funcs_map() == old(self).funcs_map());
        }
        let mut list: Vec<NetIndex> = Vec::new();
        let n = funcs.len();
        let mut i: usize = 0;
        while i < n
            invariant
                i <= n,
                n == funcs@.len(),
                list@ == funcs@.subrange(0, i as int),
            decreases n - i,
        {
            list.push(funcs[i]);
            proof {
                assert(list@ =~= funcs@.subrange(0, i + 1 as int));
            }
            i = i + 1;
        }
        proof {
            assert(list@ =~= funcs@);
        }
        self.funcs.insert(h, list);
        h
    }

    /// The constituent operator handles a composite marker was registered
    /// with.
    pub fn get_sub_func(&self, func: NetIndex) -> (r: Vec<NetIndex>)
        requires
            self.wf(),
            self.funcs_map().dom().contains(func),
        ensures
            r@ == self.funcs_map()[func]@,
    {
        let list = match self.funcs.get(&func) {
            Some(l) => l,
            None => {
                proof {
                    assert(false);
                }
                return Vec::new();
            },
        };
        let n = list.len();
        let mut r: Vec<NetIndex> = Vec::new();
        let mut i: usize = 0;
        while i < n
            invariant
                i <= n,
                n == list@.len(),
                r@ == list@.subrange(0, i as int),
            decreases n - i,
        {
            r.push(list[i]);
            proof {
                assert(r@ =~= list@.subrange(0, i + 1 as int));
            }
            i = i + 1;
        }
        proof {
            assert(r@ =~= list@);
        }
        r
    }

    /// Register `op` and wire it to consume every data node of `input` and
    /// produce every data node of `output`. All listed handles must refer to
    /// registered data nodes. Returns the fresh operator handle.
    pub fn connect(&mut self, input: &[NetIndex], op: Op, output: &[NetIndex]) -> (opid: NetIndex)
        requires
            old(self).wf(),
            forall|k: int|
                0 <= k < input@.len() ==> old(self).graph_shape().data.contains(
                    #[trigger] input@[k],
                ),
            forall|k: int|
                0 <= k < output@.len() ==> old(self).graph_shape().data.contains(
                    #[trigger] output@[k],
                ),
        ensures
            final(self).wf(),
            !old(self).ops_live(opid),
            final(self).ops_live(opid),
            final(self).graph_shape() == Graph::connect_shape(
                Graph::add_op_shape(old(self).graph_shape(), opid),
                input@,
                output@,
                opid,
            ),
            forall|h2: NetIndex|
                (#[trigger] final(self).data_live(h2)) <==> old(self).data_live(h2),
            forall|h2: NetIndex|
                old(self).data_live(h2) ==> #[trigger] final(self).tensor_at(h2) == old(self).tensor_at(h2),
            final(self).op_at(opid) == op,
            final(self).funcs_map().dom().contains(opid),
            final(self).funcs_map()[opid]@ == Seq::<NetIndex>::empty(),
            forall|k: NetIndex|
                k != opid ==> ((#[trigger] final(self).funcs_map().dom().contains(k)) <==> old(self).funcs_map().dom().contains(k)),
            forall|k: NetIndex|
                k != opid && old(self).funcs_map().dom().contains(k)
                    ==> #[trigger] final(self).funcs_map()[k] == old(self).funcs_map()[k],
            final(self).marks() == old(self).marks(),
            final(self).grads() == old(self).grads(),
    {
        let opid = self.init_op(op);
        let ghost mid = *self;
        let wired = self.graph.connect(input, output, &opid);
        proof {
            assert(self.data_arena() == mid.data_arena());
            assert(self.ops_arena() == mid.ops_arena());
            assert(self.funcs_map() == mid.funcs_map());
            assert forall|h2: NetIndex|
                (#[trigger] self.data_live(h2)) <==> old(self).data_live(h2) by {
                assert(mid.data_live(h2) <==> old(self).data_live(h2));
            }
            assert forall|h2: NetIndex|
                old(self).data_live(h2) implies #[trigger] self.tensor_at(h2) == old(self).tensor_at(h2) by {
                assert(mid.data_live(h2) <==> old(self).data_live(h2));
                assert(mid.tensor_at(h2) == old(self).tensor_at(h2));
                assert(self.tensor_at(h2) == mid.tensor_at(h2));
            }
        }
        match wired {
            Ok(_) => {
            },
            Err(_) => {
                proof {
                    assert(false);
                }
            },
        }
        opid
    }

    /// Mark a registered data node as externally supplied: it joins the
    /// starting set of forward evaluation.
    pub fn set_mark(&mut self, did: &NetIndex)
        requires
            old(self).wf(),
            old(self).graph_shape().data.contains(*did),
        ensures
            final(self).wf(),
            final(self).marks() == old(self).marks().insert(*did),
            final(self).graph_shape() == old(self).graph_shape(),
            final(self).grads() == old(self).grads(),
            final(self).data_arena() == old(self).data_arena(),
            final(self).ops_arena() == old(self).ops_arena(),
            final(self).funcs_map() == old(self).funcs_map(),
    {
        self.set_mark.insert(*did);
    }

    /// Remove the externally-supplied mark from a data node.
    pub fn unset_mark(&mut self, did: &NetIndex)
        requires
            old(self).wf(),
        ensures
            final(self).wf(),
            final(self).marks() == old(self).marks().remove(*did),
            final(self).graph_shape() == old(self).graph_shape(),
            final(self).grads() == old(self).grads(),
            final(self).data_arena() == old(self).data_arena(),
            final(self).ops_arena() == old(self).ops_arena(),
            final(self).funcs_map() == old(self).funcs_map(),
    {
        self.set_mark.remove(did);
    }

    /// The tensor stored under `h`, copied out; a stale or out-of-range
    /// handle is rejected with `InvalidHandle`.
    pub fn get_tensor(&self, h: &NetIndex) -> (r: Result<GenTensor<T>, AutoDiffError>)
        requires
            self.wf(),
        ensures
            r is Ok <==> self.data_live(*h),
            r is Ok ==> r->Ok_0.data() == self.tensor_at(*h).data() && r->Ok_0.shape()
                == self.tensor_at(*h).shape(),
            r is Err ==> r->Err_0 == AutoDiffError::InvalidHandle,
    {
        match self.data.get(h) {
            Ok(t) => Ok(t.clone()),
            Err(e) => Err(e),
        }
    }

    /// Overwrite the tensor stored under `h`; a stale or out-of-range handle
    /// is rejected with `InvalidHandle` and nothing changes.
    pub fn set_tensor(&mut self, h: &NetIndex, t: GenTensor<T>) -> (r: Result<(), AutoDiffError>)
        requires
            old(self).wf(),
        ensures
            final(self).wf(),
            r is Ok <==> old(self).data_live(*h),
            r is Ok ==> final(self).tensor_at(*h) == t,
            r is Err ==> r->Err_0 == AutoDiffError::InvalidHandle,
            final(self).graph_shape() == old(self).graph_shape(),
            forall|h2: NetIndex|
                (#[trigger] final(self).data_live(h2)) <==> old(self).data_live(h2),
            final(self).marks() == old(self).marks(),
            final(self).grads() == old(self).grads(),
    {
        self.data.set(h, t)
    }

    /// The gradient recorded for `h` by the last backward pass, copied out;
    /// `NoGradient` when none was recorded.
    pub fn gradient_of(&self, h: &NetIndex) -> (r: Result<GenTensor<T>, AutoDiffError>)
        requires
            self.wf(),
        ensures
            r is Ok <==> self.grads().dom().contains(*h),
            r is Ok ==> r->Ok_0.data() == self.grads()[*h].data() && r->Ok_0.shape()
                == self.grads()[*h].shape(),
            r is Err ==> r->Err_0 == AutoDiffError::NoGradient,
    {
        match self.data_grad.get(h) {
            Some(t) => Ok(t.clone()),
            None => Err(AutoDiffError::NoGradient),
        }
    }
}

} // verus!

verus! {

impl<T: num_traits::Float> Net<T> {
    /// Some forward schedule from `pre`'s marked inputs leaves exactly `left`
    /// ready, and `post` keeps the tensor of every data node that schedule
    /// never produced.
    pub open spec fn eval_outcome(pre: Net<T>, post: Net<T>, left: Set<NetIndex>) -> bool {
        exists|sched: Seq<WalkStep>|
            #[trigger] walk_outcome(pre.graph_shape(), true, pre.marks(), sched, left) && (forall|
                h: NetIndex,
            |
                pre.data_live(h) && !walk_produced_before(sched, sched.len() as int, h)
                    ==> #[trigger] post.tensor_at(h) == pre.tensor_at(h))
    }

    /// Forward-evaluate the network: walk the graph forward from the marked
    /// inputs and, for each fired operator, read its input tensors, run its
    /// forward pass and write the produced tensors into the output slots.
    /// `Err` carries the non-empty set of ready data nodes that could never
    /// be consumed — the walk's leftover.
    pub fn eval(&mut self) -> (r: Result<(), IdSet>)
        requires
            old(self).wf(),
        ensures
            final(self).wf(),
            final(self).graph_shape() == old(self).graph_shape(),
            final(self).marks() == old(self).marks(),
            final(self).grads() == old(self).grads(),
            forall|h: NetIndex|
                (#[trigger] final(self).data_live(h)) <==> old(self).data_live(h),
            // a schedule explains the outcome, and a data node produced by no
            // fired operator keeps its tensor
            r is Ok ==> Self::eval_outcome(*old(self), *final(self), Set::<NetIndex>::empty()),
            r is Err ==> Self::eval_outcome(*old(self), *final(self), r->Err_0.set()),
            r is Err ==> r->Err_0.set() != Set::<NetIndex>::empty() && r->Err_0.wf(),
    {
        let marks_v = self.set_mark.to_sorted_vec();
        proof {
            assert forall|k: int|
                0 <= k < marks_v@.len() implies self.graph_shape().data.contains(
                #[trigger] marks_v@[k],
            ) by {
                assert(marks_v@.to_set().contains(marks_v@[k]));
            }
        }
        let (plan, jobs) = self.graph.walk_plan(marks_v.as_slice(), true);
        proof {
            assert(marks_v@.to_set() == self.marks());
        }
        let np = plan.len();
        let mut k: usize = 0;
        while k < np
            invariant
                k <= np,
                np == plan@.len(),
                self.wf(),
                self.graph_shape() == old(self).graph_shape(),
                self.marks() == old(self).marks(),
                self.grads() == old(self).grads(),
                forall|h: NetIndex|
                    (#[trigger] self.data_live(h)) <==> old(self).data_live(h),
                forall|h: NetIndex|
                    old(self).data_live(h) && !walk_produced_before(plan@, k as int, h)
                        ==> #[trigger] self.tensor_at(h) == old(self).tensor_at(h),
                walk_sched_valid(old(self).graph_shape(), true, old(self).marks(), plan@),
            decreases np - k,
        {
            let step = &plan[k];
            proof {
                assert(crate::collection::graph::walk_step_valid(
                    self.graph_shape(),
                    true,
                    plan@[k as int],
                ));
                assert forall|q: int|
                    0 <= q < step.inputs@.len() implies self.data_live(
                    #[trigger] step.inputs@[q],
                ) by {
                    assert(step.inputs@.to_set().contains(step.inputs@[q]));
                    assert(self.graph_shape().bod[step.op].contains(step.inputs@[q]));
                }
                assert forall|q: int|
                    0 <= q < step.outputs@.len() implies self.data_live(
                    #[trigger] step.outputs@[q],
                ) by {
                    assert(step.outputs@.to_set().contains(step.outputs@[q]));
                    assert(self.graph_shape().fod[step.op].contains(step.outputs@[q]));
                }
                assert(self.ops_live(step.op));
            }
            let mut ins: Vec<GenTensor<T>> = Vec::new();
            let ni = step.inputs.len();
            let mut q: usize = 0;
            while q < ni
                invariant
                    q <= ni,
                    ni == step.inputs@.len(),
                    self.wf(),
                    forall|w: int|
                        0 <= w < step.inputs@.len() ==> self.data_live(#[trigger] step.inputs@[w]),
                decreases ni - q,
            {
                match self.data.get(&step.inputs[q]) {
                    Ok(t) => ins.push(t.clone()),
                    Err(_) => {
                        proof {
                            assert(false);
                        }
                    },
                }
                q = q + 1;
            }
            let outs: Vec<GenTensor<T>> = match self.ops.get(&step.op) {
                Ok(o) => o.apply(&ins),
                Err(_) => {
                    proof {
                        assert(false);
                    }
                    Vec::new()
                },
            };
            let no = step.outputs.len();
            let nouts = outs.len();
            let mo = if nouts < no {
                nouts
            } else {
                no
            };
            let mut w: usize = 0;
            while w < mo
                invariant
                    w <= mo,
                    mo <= step.outputs@.len(),
                    mo <= outs@.len(),
                    self.wf(),
                    self.graph_shape() == old(self).graph_shape(),
                    self.marks() == old(self).marks(),
                    self.grads() == old(self).grads(),
                    forall|h: NetIndex|
                        (#[trigger] self.data_live(h)) <==> old(self).data_live(h),
                    k < np,
                    np == plan@.len(),
                    *step == plan@[k as int],
                    forall|h: NetIndex|
                        old(self).data_live(h) && !walk_produced_before(plan@, k + 1, h)
                            ==> #[trigger] self.tensor_at(h) == old(self).tensor_at(h),
                    forall|v: int|
                        0 <= v < step.outputs@.len() ==> self.data_live(
                            #[trigger] step.outputs@[v],
                        ),
                decreases mo - w,
            {
                let ghost pre = *self;
                let t = outs[w].clone();
                match self.data.set(&step.outputs[w], t) {
                    Ok(_) => {
                    },
                    Err(_) => {
                        proof {
                            assert(false);
                        }
                    },
                }
                proof {
                    assert forall|h: NetIndex|
                        (#[trigger] self.data_live(h)) <==> old(self).data_live(h) by {
                        assert(pre.data_live(h) <==> old(self).data_live(h));
                    }
                    assert forall|v: int|
                        0 <= v < step.outputs@.len() implies self.data_live(
                        #[trigger] step.outputs@[v],
                    ) by {
                        assert(pre.data_live(step.outputs@[v]));
                    }
                    assert forall|h: NetIndex|
                        old(self).data_live(h) && !walk_produced_before(plan@, k + 1, h) implies
                        #[trigger] self.tensor_at(h) == old(self).tensor_at(h) by {
                        assert(pre.tensor_at(h) == old(self).tensor_at(h));
                        // the write hit an output of this step, which any
                        // unproduced node is not
                        assert(step.outputs@.to_set().contains(step.outputs@[w as int]));
                        if h == step.outputs@[w as int] {
                            assert((#[trigger] plan@[k as int]).outputs@.to_set().contains(h));
                            assert(walk_produced_before(plan@, k + 1, h));
                        } else {
                            assert(pre.data_live(h));
                            assert(self.tensor_at(h) == pre.tensor_at(h));
                        }
                    }
                }
                w = w + 1;
            }
            k = k + 1;
        }
        proof {
            assert(walk_outcome(old(self).graph_shape(), true, old(self).marks(), plan@,
                jobs.set()));
            assert(Self::eval_outcome(*old(self), *self, jobs.set()));
        }
        if jobs.is_empty() {
            proof {
                assert(jobs.set() =~= Set::<NetIndex>::empty());
            }
            Ok(())
        } else {
            Err(jobs)
        }
    }

    /// Backward pass: reset the gradient table to empty gradients for every
    /// registered data node, override it with the caller's seed gradients,
    /// then walk the graph in reverse from the seeded nodes; each fired
    /// operator reads its forward inputs, the gradients of its outputs and
    /// the current gradients of its inputs, and writes updated input
    /// gradients back. `Err` carries the walk's non-empty leftover.
    pub fn bptt(&mut self, output_grad: &KeyedMap<GenTensor<T>>) -> (r: Result<(), IdSet>)
        requires
            old(self).wf(),
            output_grad.wf(),
            forall|k: NetIndex|
                #[trigger] output_grad.map().dom().contains(k) ==> old(self).graph_shape().data.contains(k),
        ensures
            final(self).wf(),
            final(self).graph_shape() == old(self).graph_shape(),
            final(self).marks() == old(self).marks(),
            forall|h: NetIndex|
                (#[trigger] final(self).data_live(h)) <==> old(self).data_live(h),
            forall|h: NetIndex|
                old(self).data_live(h) ==> #[trigger] final(self).tensor_at(h) == old(self).tensor_at(h),
            forall|d: NetIndex|
                old(self).graph_shape().data.contains(d) ==> #[trigger] final(self).grads().dom().contains(d),
            // a seeded node no operator consumes keeps exactly its seed
            forall|k2: NetIndex|
                #[trigger] output_grad.map().dom().contains(k2) && old(self).graph_shape().fdo[k2]
                    == Set::<NetIndex>::empty() ==> final(self).grads().dom().contains(k2) && final(self).grads()[k2].data() == output_grad.map()[k2].data() && final(self).grads()[k2].shape() == output_grad.map()[k2].shape(),
            // a schedule of the reverse walk from the seeded nodes explains
            // the outcome
            r is Ok ==> walk_outcome_exists(
                old(self).graph_shape(),
                false,
                output_grad.map().dom(),
                Set::<NetIndex>::empty(),
            ),
            r is Err ==> walk_outcome_exists(
                old(self).graph_shape(),
                false,
                output_grad.map().dom(),
                r->Err_0.set(),
            ),
            r is Err ==> r->Err_0.set() != Set::<NetIndex>::empty() && r->Err_0.wf(),
    {
        self.data_grad.clear();
        let m = output_grad.len();
        let mut seeds: Vec<NetIndex> = Vec::new();
        let mut i: usize = 0;
        while i < m
            invariant
                i <= m,
                m == output_grad.entries_seq().len(),
                output_grad.wf(),
                forall|k2: NetIndex|
                    #[trigger] output_grad.map().dom().contains(k2) ==> old(self).graph_shape().data.contains(k2),
                self.wf(),
                self.graph_shape() == old(self).graph_shape(),
                self.marks() == old(self).marks(),
                self.data_arena() == old(self).data_arena(),
                seeds@.len() == i,
                forall|q: int|
                    0 <= q < i ==> #[trigger] seeds@[q] == output_grad.entries_seq()[q].0,
                forall|q: int|
                    0 <= q < i ==> self.graph_shape().data.contains(#[trigger] seeds@[q]),
                forall|q: int|
                    0 <= q < i ==> #[trigger] output_grad.map().dom().contains(seeds@[q]),
                forall|q: int|
                    0 <= q < i ==> #[trigger] self.grads().dom().contains(seeds@[q]),
                forall|q: int|
                    0 <= q < i ==> #[trigger] self.grads()[seeds@[q]].data()
                        == output_grad.map()[seeds@[q]].data() && self.grads()[seeds@[q]].shape()
                        == output_grad.map()[seeds@[q]].shape(),
            decreases m - i,
        {
            let kk = output_grad.key_at(i);
            let v = output_grad.val_at(i).clone();
            let ghost pre = *self;
            self.data_grad.insert(kk, v);
            seeds.push(kk);
            proof {
                assert forall|q: int|
                    0 <= q < i + 1 implies #[trigger] self.grads().dom().contains(seeds@[q]) by {
                    if q < i {
                        assert(pre.grads().dom().contains(seeds@[q]));
                    } else {
                        assert(seeds@[q] == kk);
                    }
                }
                assert forall|q: int|
                    0 <= q < i + 1 implies #[trigger] self.grads()[seeds@[q]].data()
                        == output_grad.map()[seeds@[q]].data() && self.grads()[seeds@[q]].shape()
                        == output_grad.map()[seeds@[q]].shape() by {
                    if q < i {
                        output_grad.lemma_keys_unique(q, i as int);
                        assert(seeds@[q] != kk);
                        assert(self.grads()[seeds@[q]] == pre.grads()[seeds@[q]]);
                    } else {
                        assert(seeds@[q] == kk);
                        assert(self.grads()[kk] == v);
                    }
                }
            }
            i = i + 1;
        }
        proof {
            assert forall|k2: NetIndex|
                #[trigger] output_grad.map().dom().contains(k2) implies seeds@.to_set().contains(
                k2,
            ) by {
                output_grad.lemma_dom(k2);
                let q = choose|q: int|
                    0 <= q < output_grad.entries_seq().len()
                        && #[trigger] output_grad.entries_seq()[q].0 == k2;
                assert(seeds@[q] == k2);
            }
            assert forall|k2: NetIndex|
                #[trigger] seeds@.to_set().contains(k2) implies output_grad.map().dom().contains(
                k2,
            ) by {
                let q = choose|q: int| 0 <= q < seeds@.len() && #[trigger] seeds@[q] == k2;
            }
            assert(seeds@.to_set() =~= output_grad.map().dom());
            assert forall|k2: NetIndex|
                #[trigger] output_grad.map().dom().contains(k2) implies self.grads().dom().contains(
                k2,
            ) && self.grads()[k2].data() == output_grad.map()[k2].data()
                && self.grads()[k2].shape() == output_grad.map()[k2].shape() by {
                let q = choose|q: int| 0 <= q < seeds@.len() && #[trigger] seeds@[q] == k2;
            }
        }
        let all = self.graph.list_data();
        let n = all.len();
        let mut j: usize = 0;
        while j < n
            invariant
                j <= n,
                n == all@.len(),
                self.wf(),
                self.graph_shape() == old(self).graph_shape(),
                self.marks() == old(self).marks(),
                self.data_arena() == old(self).data_arena(),
                all@.to_set() == self.graph_shape().data,
                forall|q: int|
                    0 <= q < seeds@.len() ==> self.graph_shape().data.contains(
                        #[trigger] seeds@[q],
                    ),
                forall|q: int|
                    0 <= q < seeds@.len() ==> #[trigger] self.grads().dom().contains(seeds@[q]),
                forall|q: int| 0 <= q < j ==> #[trigger] self.grads().dom().contains(all@[q]),
                seeds@.to_set() == output_grad.map().dom(),
                forall|k2: NetIndex|
                    #[trigger] output_grad.map().dom().contains(k2)
                        ==> self.grads().dom().contains(k2) && self.grads()[k2].data()
                        == output_grad.map()[k2].data() && self.grads()[k2].shape()
                        == output_grad.map()[k2].shape(),
            decreases n - j,
        {
            let d = all[j];
            let present = self.data_grad.contains_key(&d);
            let ghost pre = *self;
            if !present {
                self.data_grad.insert(d, GenTensor::new());
            }
            proof {
                assert forall|q: int|
                    0 <= q < seeds@.len() implies #[trigger] self.grads().dom().contains(
                    seeds@[q],
                ) by {
                    assert(pre.grads().dom().contains(seeds@[q]));
                }
                assert forall|q: int|
                    0 <= q < j + 1 implies #[trigger] self.grads().dom().contains(all@[q]) by {
                    if q < j {
                        assert(pre.grads().dom().contains(all@[q]));
                    } else {
                        assert(all@[q] == d);
                    }
                }
                assert forall|k2: NetIndex|
                    #[trigger] output_grad.map().dom().contains(k2) implies self.grads().dom().contains(
                    k2,
                ) && self.grads()[k2].data() == output_grad.map()[k2].data()
                    && self.grads()[k2].shape() == output_grad.map()[k2].shape() by {
                    assert(pre.grads().dom().contains(k2));
                    if !present {
                        assert(k2 != d);
                        assert(self.grads()[k2] == pre.grads()[k2]);
                    }
                }
            }
            j = j + 1;
        }
        proof {
            assert forall|d: NetIndex|
                self.graph_shape().data.contains(d) implies #[trigger] self.grads().dom().contains(
                d,
            ) by {
                assert(all@.to_set().contains(d));
                let q = choose|q: int| 0 <= q < all@.len() && #[trigger] all@[q] == d;
            }
        }
        let (plan, jobs) = self.graph.walk_plan(seeds.as_slice(), false);
        let np = plan.len();
        let mut k: usize = 0;
        while k < np
            invariant
                k <= np,
                np == plan@.len(),
                self.wf(),
                self.graph_shape() == old(self).graph_shape(),
                self.marks() == old(self).marks(),
                self.data_arena() == old(self).data_arena(),
                forall|d: NetIndex|
                    self.graph_shape().data.contains(d) ==> #[trigger] self.grads().dom().contains(
                        d,
                    ),
                seeds@.to_set() == output_grad.map().dom(),
                forall|k2: NetIndex|
                    #[trigger] output_grad.map().dom().contains(k2) && old(self).graph_shape().fdo[k2] == Set::<NetIndex>::empty()
                        ==> self.grads().dom().contains(k2) && self.grads()[k2].data()
                        == output_grad.map()[k2].data() && self.grads()[k2].shape()
                        == output_grad.map()[k2].shape(),
                walk_sched_valid(self.graph_shape(), false, seeds@.to_set(), plan@),
            decreases np - k,
        {
            let step = &plan[k];
            proof {
                assert(crate::collection::graph::walk_step_valid(
                    self.graph_shape(),
                    false,
                    plan@[k as int],
                ));
                // in the backward walk the step's outputs are the operator's
                // forward inputs, its inputs the forward outputs
                assert forall|q: int|
                    0 <= q < step.outputs@.len() implies self.graph_shape().data.contains(
                    #[trigger] step.outputs@[q],
                ) && self.data_live(step.outputs@[q]) by {
                    assert(step.outputs@.to_set().contains(step.outputs@[q]));
                    assert(self.graph_shape().bod[step.op].contains(step.outputs@[q]));
                }
                assert forall|q: int|
                    0 <= q < step.inputs@.len() implies self.graph_shape().data.contains(
                    #[trigger] step.inputs@[q],
                ) by {
                    assert(step.inputs@.to_set().contains(step.inputs@[q]));
                    assert(self.graph_shape().fod[step.op].contains(step.inputs@[q]));
                }
                assert(self.ops_live(step.op));
            }
            let mut ins: Vec<GenTensor<T>> = Vec::new();
            let nfi = step.outputs.len();
            let mut q: usize = 0;
            while q < nfi
                invariant
                    q <= nfi,
                    nfi == step.outputs@.len(),
                    self.wf(),
                    forall|w: int|
                        0 <= w < step.outputs@.len() ==> self.data_live(
                            #[trigger] step.outputs@[w],
                        ),
                decreases nfi - q,
            {
                match self.data.get(&step.outputs[q]) {
                    Ok(t) => ins.push(t.clone()),
                    Err(_) => {
                        proof {
                            assert(false);
                        }
                    },
                }
                q = q + 1;
            }
            let mut outg: Vec<GenTensor<T>> = Vec::new();
            let ngo = step.inputs.len();
            let mut q2: usize = 0;
            while q2 < ngo
                invariant
                    q2 <= ngo,
                    ngo == step.inputs@.len(),
                    self.wf(),
                    forall|w: int|
                        0 <= w < step.inputs@.len() ==> self.graph_shape().data.contains(
                            #[trigger] step.inputs@[w],
                        ),
                    forall|d: NetIndex|
                        self.graph_shape().data.contains(d)
                            ==> #[trigger] self.grads().dom().contains(d),
                decreases ngo - q2,
            {
                proof {
                    assert(self.graph_shape().data.contains(step.inputs@[q2 as int]));
                    assert(self.grads().dom().contains(step.inputs@[q2 as int]));
                }
                match self.data_grad.get(&step.inputs[q2]) {
                    Some(t) => outg.push(t.clone()),
                    None => {
                        proof {
                            assert(false);
                        }
                    },
                }
                q2 = q2 + 1;
            }
            let mut ing: Vec<GenTensor<T>> = Vec::new();
            let mut q3: usize = 0;
            while q3 < nfi
                invariant
                    q3 <= nfi,
                    nfi == step.outputs@.len(),
                    self.wf(),
                    forall|w: int|
                        0 <= w < step.outputs@.len() ==> self.graph_shape().data.contains(
                            #[trigger] step.outputs@[w],
                        ),
                    forall|d: NetIndex|
                        self.graph_shape().data.contains(d)
                            ==> #[trigger] self.grads().dom().contains(d),
                decreases nfi - q3,
            {
                proof {
                    assert(self.graph_shape().data.contains(step.outputs@[q3 as int]));
                    assert(self.grads().dom().contains(step.outputs@[q3 as int]));
                }
                match self.data_grad.get(&step.outputs[q3]) {
                    Some(t) => ing.push(t.clone()),
                    None => {
                        proof {
                            assert(false);
                        }
                    },
                }
                q3 = q3 + 1;
            }
            let newg: Vec<GenTensor<T>> = match self.ops.get(&step.op) {
                Ok(o) => o.grad(&ins, &outg, &ing),
                Err(_) => {
                    proof {
                        assert(false);
                    }
                    Vec::new()
                },
            };
            let nn = newg.len();
            let mo = if nn < nfi {
                nn
            } else {
                nfi
            };
            let mut w: usize = 0;
            while w < mo
                invariant
                    w <= mo,
                    mo <= step.outputs@.len(),
                    mo <= newg@.len(),
                    k < np,
                    np == plan@.len(),
                    *step == plan@[k as int],
                    self.wf(),
                    self.graph_shape() == old(self).graph_shape(),
                    self.marks() == old(self).marks(),
                    self.data_arena() == old(self).data_arena(),
                    walk_sched_valid(self.graph_shape(), false, seeds@.to_set(), plan@),
                    forall|d: NetIndex|
                        self.graph_shape().data.contains(d)
                            ==> #[trigger] self.grads().dom().contains(d),
                    forall|k2: NetIndex|
                    #[trigger] output_grad.map().dom().contains(k2) && old(self).graph_shape().fdo[k2] == Set::<NetIndex>::empty()
                            ==> self.grads().dom().contains(k2) && self.grads()[k2].data()
                            == output_grad.map()[k2].data() && self.grads()[k2].shape()
                            == output_grad.map()[k2].shape(),
                decreases mo - w,
            {
                let ghost pre = *self;
                let t = newg[w].clone();
                self.data_grad.insert(step.outputs[w], t);
                proof {
                    assert forall|d: NetIndex|
                        self.graph_shape().data.contains(d) implies
                        #[trigger] self.grads().dom().contains(d) by {
                        assert(pre.grads().dom().contains(d));
                    }
                    assert forall|k2: NetIndex|
                        #[trigger] output_grad.map().dom().contains(k2) && old(self).graph_shape().fdo[k2] == Set::<NetIndex>::empty() implies
                        self.grads().dom().contains(k2) && self.grads()[k2].data()
                        == output_grad.map()[k2].data() && self.grads()[k2].shape()
                        == output_grad.map()[k2].shape() by {
                        assert(pre.grads().dom().contains(k2));
                        // the written key is consumed by the fired operator,
                        // so it cannot be a node no operator consumes
                        assert(crate::collection::graph::walk_step_valid(
                            self.graph_shape(),
                            false,
                            plan@[k as int],
                        ));
                        assert(step.outputs@.to_set().contains(step.outputs@[w as int]));
                        assert(self.graph_shape().bod[step.op].contains(step.outputs@[w as int]));
                        if k2 == step.outputs@[w as int] {
                            assert(self.graph_shape().fdo[k2].contains(step.op));
                        } else {
                            assert(self.grads()[k2] == pre.grads()[k2]);
                        }
                    }
                }
                w = w + 1;
            }
            k = k + 1;
        }
        proof {
            assert(walk_outcome(
                old(self).graph_shape(),
                false,
                seeds@.to_set(),
                plan@,
                jobs.set(),
            ));
            assert(walk_outcome(
                old(self).graph_shape(),
                false,
                output_grad.map().dom(),
                plan@,
                jobs.set(),
            ));
            assert(walk_outcome_exists(
                old(self).graph_shape(),
                false,
                output_grad.map().dom(),
                jobs.set(),
            ));
        }
        if jobs.is_empty() {
            proof {
                assert(jobs.set() =~= Set::<NetIndex>::empty());
            }
            Ok(())
        } else {
            Err(jobs)
        }
    }

    /// Backward pass seeded with constant gradients of value `r` at every
    /// sink of the graph, in the shape of each sink's tensor.
    pub fn bptt_scale(&mut self, r: T) -> (res: Result<(), IdSet>)
        requires
            old(self).wf(),
        ensures
            final(self).wf(),
            final(self).graph_shape() == old(self).graph_shape(),
            final(self).marks() == old(self).marks(),
            forall|h: NetIndex|
                (#[trigger] final(self).data_live(h)) <==> old(self).data_live(h),
            forall|h: NetIndex|
                old(self).data_live(h) ==> #[trigger] final(self).tensor_at(h) == old(self).tensor_at(h),
            forall|d: NetIndex|
                old(self).graph_shape().data.contains(d) ==> #[trigger] final(self).grads().dom().contains(d),
            // every sink was seeded with a tensor of its own shape, filled
            // with `r`, and keeps that seed
            forall|k2: NetIndex|
                #[trigger] old(self).graph_shape().sink_set().contains(k2) ==> {
                    &&& final(self).grads().dom().contains(k2)
                    &&& final(self).grads()[k2].shape() == old(self).tensor_at(k2).shape()
                    &&& final(self).grads()[k2].data().len() == old(self).tensor_at(
                        k2,
                    ).data().len()
                    &&& forall|e: int|
                        0 <= e < final(self).grads()[k2].data().len()
                            ==> final(self).grads()[k2].data()[e] == r
                },
            res is Ok ==> walk_outcome_exists(
                old(self).graph_shape(),
                false,
                old(self).graph_shape().sink_set(),
                Set::<NetIndex>::empty(),
            ),
            res is Err ==> walk_outcome_exists(
                old(self).graph_shape(),
                false,
                old(self).graph_shape().sink_set(),
                res->Err_0.set(),
            ),
            res is Err ==> res->Err_0.set() != Set::<NetIndex>::empty() && res->Err_0.wf(),
    {
        let sinks = self.graph.get_output_cache();
        let mut job: KeyedMap<GenTensor<T>> = KeyedMap::new();
        let n = sinks.len();
        let mut i: usize = 0;
        while i < n
            invariant
                i <= n,
                n == sinks.seq().len(),
                self.wf(),
                job.wf(),
                sinks.wf(),
                sinks.set() == self.graph_shape().sink_set(),
                forall|k2: NetIndex|
                    #[trigger] job.map().dom().contains(k2) ==> self.graph_shape().data.contains(
                        k2,
                    ) && sinks.set().contains(k2),
                forall|q: int| 0 <= q < i ==> job.map().dom().contains(#[trigger] sinks.seq()[q]),
                forall|k2: NetIndex|
                    #[trigger] job.map().dom().contains(k2) ==> {
                        &&& job.map()[k2].shape() == self.tensor_at(k2).shape()
                        &&& job.map()[k2].data().len() == self.tensor_at(k2).data().len()
                        &&& forall|e: int|
                            0 <= e < job.map()[k2].data().len() ==> job.map()[k2].data()[e] == r
                    },
            decreases n - i,
        {
            let d = sinks.index(i);
            proof {
                assert(sinks.set().contains(d));
                assert(self.graph_shape().data.contains(d));
            }
            let t = match self.data.get(&d) {
                Ok(t) => t.filled_like(r),
                Err(_) => {
                    proof {
                        assert(false);
                    }
                    GenTensor::new()
                },
            };
            let ghost jobpre = job.map();
            job.insert(d, t);
            proof {
                assert forall|k2: NetIndex|
                    #[trigger] job.map().dom().contains(k2) implies {
                    &&& job.map()[k2].shape() == self.tensor_at(k2).shape()
                    &&& job.map()[k2].data().len() == self.tensor_at(k2).data().len()
                    &&& forall|e: int|
                        0 <= e < job.map()[k2].data().len() ==> job.map()[k2].data()[e] == r
                } by {
                    if k2 != d {
                        assert(jobpre.dom().contains(k2));
                        assert(job.map()[k2] == jobpre[k2]);
                    } else {
                        assert(job.map()[k2] == t);
                    }
                }
            }
            i = i + 1;
        }
        proof {
            assert forall|k2: NetIndex|
                self.graph_shape().sink_set().contains(k2) implies
                #[trigger] job.map().dom().contains(k2) by {
                assert(sinks.set().contains(k2));
                let q = choose|q: int| 0 <= q < sinks.seq().len() && #[trigger] sinks.seq()[q] == k2;
            }
            assert(job.map().dom() =~= self.graph_shape().sink_set());
        }
        self.bptt(&job)
    }

    /// Visit every operator, optionally restricted to an allow list or
    /// thinned by a skip list, in registration order.
    pub fn visit_op<F: Fn(&Op) -> ()>(
        &mut self,
        closure: F,
        allow: Option<Vec<NetIndex>>,
        skip: Option<Vec<NetIndex>>,
    )
        requires
            old(self).wf(),
            forall|o: &Op| #[trigger] closure.requires((o,)),
        ensures
            *final(self) == *old(self),
    {
        let allow_list: Vec<NetIndex> = match allow {
            Some(l) => l,
            None => Vec::new(),
        };
        let skip_list: Vec<NetIndex> = match skip {
            Some(l) => l,
            None => Vec::new(),
        };
        let ops_v = self.graph.list_op();
        let n = ops_v.len();
        let mut i: usize = 0;
        while i < n
            invariant
                i <= n,
                n == ops_v@.len(),
                self.wf(),
                ops_v@.to_set() == self.graph_shape().ops,
                forall|o: &Op| #[trigger] closure.requires((o,)),
            decreases n - i,
        {
            let h = ops_v[i];
            proof {
                assert(ops_v@.to_set().contains(ops_v@[i as int]));
            }
            let chosen = (allow_list.len() == 0 && skip_list.len() == 0) || (allow_list.len() != 0
                && vec_has(&allow_list, &h)) || (skip_list.len() != 0 && !vec_has(&skip_list, &h));
            if chosen {
                match self.ops.get(&h) {
                    Ok(o) => closure(o),
                    Err(_) => {
                        proof {
                            assert(false);
                        }
                    },
                }
            }
            i = i + 1;
        }
    }

    /// Visit every data node's tensor, in registration order.
    pub fn visit_data<F: Fn(&GenTensor<T>) -> ()>(&mut self, closure: F)
        requires
            old(self).wf(),
            forall|t: &GenTensor<T>| #[trigger] closure.requires((t,)),
        ensures
            *final(self) == *old(self),
    {
        let data_v = self.graph.list_data();
        let n = data_v.len();
        let mut i: usize = 0;
        while i < n
            invariant
                i <= n,
                n == data_v@.len(),
                self.wf(),
                data_v@.to_set() == self.graph_shape().data,
                forall|t: &GenTensor<T>| #[trigger] closure.requires((t,)),
            decreases n - i,
        {
            let h = data_v[i];
            proof {
                assert(data_v@.to_set().contains(data_v@[i as int]));
            }
            match self.data.get(&h) {
                Ok(t) => closure(t),
                Err(_) => {
                    proof {
                        assert(false);
                    }
                },
            }
            i = i + 1;
        }
    }
}

/// Whether the vector holds the handle.
fn vec_has(v: &Vec<NetIndex>, x: &NetIndex) -> (r: bool)
    ensures
        r == v@.contains(*x),
{
    let n = v.len();
    let mut i: usize = 0;
    while i < n
        invariant
            i <= n,
            n == v@.len(),
            forall|k: int| 0 <= k < i ==> v@[k] != *x,
        decreases n - i,
    {
        if v[i] == *x {
            proof {
                assert(v@[i as int] == *x);
            }
            return true;
        }
        i = i + 1;
    }
    false
}

} // verus!
