//! Linear-algebra operations: LU decomposition and the determinant hook, as
//! inherent operations on [`GenTensor`] and mirrored by a trait interface.

use vstd::prelude::*;
use crate::tensor::gen_tensor::{GenTensor, prod_from};
use crate::tensor::elem::{el_div, el_mul, el_sub};

verus! {

/// Linear-algebra operations over one tensor type.
pub trait ElemwiseTensorOp {
    /// The tensor type the operations return.
    type TensorType;

    /// The scalar element type.
    type ElementType;

    fn lu(&self) -> Option<[Self::TensorType; 2]>;

    fn det(&self) -> Option<Self::ElementType>;
}

impl<T: num_traits::Float> GenTensor<T> {
    /// LU decomposition by Gaussian elimination without pivoting: for a
    /// square matrix, a unit-lower-triangular `L` and an upper-triangular `U`
    /// of the same shape; `None` for anything that is not a square matrix.
    pub fn lu(&self) -> (r: Option<[GenTensor<T>; 2]>)
        requires
            self.wf(),
        ensures
            r is Some <==> (self.shape().len() == 2 && self.shape()[0] == self.shape()[1]),
            r is Some ==> {
                &&& r->Some_0[0].shape() == self.shape()
                &&& r->Some_0[1].shape() == self.shape()
                &&& r->Some_0[0].wf() && r->Some_0[1].wf()
            },
    {
        if self.size().len() != 2 {
            return None;
        }
        let n0 = self.dim_at(0);
        let n1 = self.dim_at(1);
        if n0 != n1 {
            return None;
        }
        let nr = n0;
        proof {
            assert(prod_from(self.shape(), 2) == 1);
            assert(prod_from(self.shape(), 1) == nr * prod_from(self.shape(), 2));
            assert(prod_from(self.shape(), 0) == nr * prod_from(self.shape(), 1));
            assert(nr * nr <= usize::MAX) by (nonlinear_arith)
                requires
                    nr * ((nr as int) * 1) <= usize::MAX,
            ;
        }
        let mut l = GenTensor::<T>::eye(nr, nr);
        let mut u = self.clone();
        if nr > 0 {
            let mut i: usize = 0;
            while i < nr - 1
                invariant
                    nr >= 1,
                    i <= nr - 1,
                    l.wf() && l.shape().len() == 2 && l.shape()[0] == nr && l.shape()[1] == nr,
                    u.wf() && u.shape().len() == 2 && u.shape()[0] == nr && u.shape()[1] == nr,
                decreases nr - 1 - i,
            {
                let mut ij: Vec<usize> = Vec::new();
                ij.push(i);
                ij.push(i);
                let leading = u.get(ij.as_slice());
                let mut j: usize = i + 1;
                while j < nr
                    invariant
                        i < j <= nr,
                        i < nr,
                        l.wf() && l.shape().len() == 2 && l.shape()[0] == nr && l.shape()[1] == nr,
                        u.wf() && u.shape().len() == 2 && u.shape()[0] == nr && u.shape()[1] == nr,
                    decreases nr - j,
                {
                    let mut ji: Vec<usize> = Vec::new();
                    ji.push(j);
                    ji.push(i);
                    let multiplier = el_div(u.get(ji.as_slice()), leading);
                    l.set(ji.as_slice(), multiplier);
                    let mut k: usize = i;
                    while k < nr
                        invariant
                            i <= k <= nr,
                            i < j < nr,
                            l.wf() && l.shape().len() == 2 && l.shape()[0] == nr && l.shape()[1]
                                == nr,
                            u.wf() && u.shape().len() == 2 && u.shape()[0] == nr && u.shape()[1]
                                == nr,
                        decreases nr - k,
                    {
                        let mut jk: Vec<usize> = Vec::new();
                        jk.push(j);
                        jk.push(k);
                        let mut ik: Vec<usize> = Vec::new();
                        ik.push(i);
                        ik.push(k);
                        let newv = el_sub(u.get(jk.as_slice()), el_mul(u.get(ik.as_slice()),
                            multiplier));
                        u.set(jk.as_slice(), newv);
                        k = k + 1;
                    }
                    j = j + 1;
                }
                i = i + 1;
            }
        }
        Some([l, u])
    }

    /// The determinant hook over [`GenTensor::lu`]; the value itself is not
    /// computed (the zero of the element type stands in), matching the
    /// surface the decomposition exposes.
    pub fn det(&self) -> (r: Option<T>)
        requires
            self.wf(),
        ensures
            r is Some <==> (self.shape().len() == 2 && self.shape()[0] == self.shape()[1]),
    {
        match self.lu() {
            Some(_lu_pair) => Some(crate::tensor::elem::el_zero()),
            None => None,
        }
    }

    /// The size of dimension `i`.
    pub fn dim_at(&self, i: usize) -> (r: usize)
        requires
            i < self.shape().len(),
        ensures
            r == self.shape()[i as int],
    {
        self.size()[i]
    }
}

} // verus!
