//! A dense tensor stored in row-major order: a flat buffer of elements and a
//! shape vector. The index arithmetic — strides, linear indices, multi-index
//! conversion — is fully specified and verified; the element values follow the
//! floating-point operations of the `num_traits` crate and are not modelled.

use vstd::prelude::*;
use crate::tensor::elem::{el_zero, el_one, el_from_usize, el_to_u8, el_add, el_sub, el_mul, el_div, el_lt, el_le, el_gt, el_ge, el_eq, el_ne, el_abs, el_neg, el_exp, el_ln_1p, el_sqrt, el_min_positive, el_recip, el_powf, el_acos, el_asin, el_atan, el_ceil, el_cos, el_cosh, el_exp_m1, el_floor, el_fract, el_ln, el_log10, el_log2, el_round, el_sin, el_sinh, el_tan, el_tanh, el_trunc};

verus! {

/// The number of elements spanned by dimensions `i..` of `dims`: the product
/// of the trailing dimensions, 1 for an empty range. `prod_from(dims, 0)` is
/// the total element count, `prod_from(dims, i + 1)` the stride of axis `i`.
pub open spec fn prod_from(dims: Seq<usize>, i: int) -> int
    decreases dims.len() - i,
{
    if i < 0 || i >= dims.len() {
        1
    } else {
        dims[i] * prod_from(dims, i + 1)
    }
}

/// The row-major linear index of the multi-index `pos`, counting from axis
/// `i`: the sum of `pos[k] * stride(k)` over `k >= i`.
pub open spec fn lin_from(dims: Seq<usize>, pos: Seq<usize>, i: int) -> int
    decreases pos.len() - i,
{
    if i < 0 || i >= pos.len() {
        0
    } else {
        pos[i] * prod_from(dims, i + 1) + lin_from(dims, pos, i + 1)
    }
}

/// The row-major linear index of the multi-index `pos` in shape `dims`.
pub open spec fn lin_index(dims: Seq<usize>, pos: Seq<usize>) -> int {
    lin_from(dims, pos, 0)
}

/// Every trailing product is positive exactly when the dimensions it spans
/// are all positive; products and partial sums are never negative.
pub proof fn lemma_prod_from_nonneg(dims: Seq<usize>, i: int)
    ensures
        prod_from(dims, i) >= 0,
    decreases dims.len() - i,
{
    if 0 <= i < dims.len() {
        lemma_prod_from_nonneg(dims, i + 1);
        assert(dims[i] * prod_from(dims, i + 1) >= 0) by (nonlinear_arith)
            requires
                dims[i] >= 0,
                prod_from(dims, i + 1) >= 0,
        ;
    }
}

/// When the total element count is positive, every dimension and every
/// trailing product is positive.
pub proof fn lemma_prod_from_pos(dims: Seq<usize>, i: int)
    requires
        prod_from(dims, 0) > 0,
        0 <= i <= dims.len(),
    ensures
        prod_from(dims, i) > 0,
        forall|k: int| 0 <= k < dims.len() ==> dims[k] > 0,
    decreases dims.len(),
{
    assert forall|k: int| 0 <= k < dims.len() implies dims[k] > 0 by {
        lemma_prod_factor(dims, 0, k);
    }
    lemma_prod_from_pos_suffix(dims, i);
}

proof fn lemma_prod_factor(dims: Seq<usize>, i: int, k: int)
    requires
        0 <= i <= k < dims.len(),
        prod_from(dims, i) > 0,
    ensures
        dims[k] > 0,
        prod_from(dims, k) > 0,
    decreases k - i,
{
    lemma_prod_from_nonneg(dims, i + 1);
    assert(prod_from(dims, i + 1) > 0) by (nonlinear_arith)
        requires
            prod_from(dims, i) == dims[i] * prod_from(dims, i + 1),
            prod_from(dims, i) > 0,
            dims[i] >= 0,
            prod_from(dims, i + 1) >= 0,
    ;
    if i == k {
        assert(dims[k] > 0) by (nonlinear_arith)
            requires
                prod_from(dims, k) == dims[k] * prod_from(dims, k + 1),
                prod_from(dims, k) > 0,
                dims[k] >= 0,
    ;
    } else {
        lemma_prod_factor(dims, i + 1, k);
    }
}

proof fn lemma_prod_from_pos_suffix(dims: Seq<usize>, i: int)
    requires
        prod_from(dims, 0) > 0,
        0 <= i <= dims.len(),
    ensures
        prod_from(dims, i) > 0,
    decreases i,
{
    if i > 0 {
        lemma_prod_from_pos_suffix(dims, i - 1);
        lemma_prod_from_nonneg(dims, i);
        assert(prod_from(dims, i) > 0) by (nonlinear_arith)
            requires
                prod_from(dims, i - 1) == dims[i - 1] * prod_from(dims, i),
                prod_from(dims, i - 1) > 0,
                prod_from(dims, i) >= 0,
        ;
    }
}

/// A linear index built from an in-range multi-index stays below the trailing
/// product: the defining bound of row-major layout.
pub proof fn lemma_lin_from_bound(dims: Seq<usize>, pos: Seq<usize>, i: int)
    requires
        pos.len() == dims.len(),
        forall|k: int| 0 <= k < dims.len() ==> pos[k] < dims[k],
        0 <= i <= dims.len(),
    ensures
        0 <= lin_from(dims, pos, i) < prod_from(dims, i),
    decreases dims.len() - i,
{
    if i == dims.len() {
    } else {
        lemma_lin_from_bound(dims, pos, i + 1);
        lemma_prod_from_nonneg(dims, i + 1);
        assert(pos[i] * prod_from(dims, i + 1) >= 0 && pos[i] * prod_from(dims, i + 1) <= (dims[i]
            - 1) * prod_from(dims, i + 1) && dims[i] * prod_from(dims, i + 1) == (dims[i] - 1)
            * prod_from(dims, i + 1) + prod_from(dims, i + 1)) by (nonlinear_arith)
            requires
                0 <= pos[i] < dims[i],
                prod_from(dims, i + 1) >= 0,
        ;
    }
}

/// One tensor: a flat element buffer `d` and the shape `dim`, row-major (the
/// rightmost dimension varies fastest).
#[derive(Debug, PartialEq)]
pub struct GenTensor<T> {
    d: Vec<T>,
    dim: Vec<usize>,
}

impl<T> GenTensor<T> {
    /// The elements in row-major order.
    pub closed spec fn data(&self) -> Seq<T> {
        self.d@
    }

    /// The shape.
    pub closed spec fn shape(&self) -> Seq<usize> {
        self.dim@
    }

    /// Shape and buffer agree: the buffer holds exactly one element per
    /// position of the shape, and no trailing product overflows `usize` (so
    /// stride arithmetic cannot overflow).
    pub open spec fn wf(&self) -> bool {
        &&& prod_from(self.shape(), 0) == self.data().len()
        &&& forall|i: int| 0 <= i <= self.shape().len() ==> prod_from(self.shape(), i)
            <= usize::MAX
    }
}

impl<T: num_traits::Float> GenTensor<T> {
    /// An empty tensor: no elements, no dimensions.
    pub fn new() -> (r: GenTensor<T>)
        ensures
            r.data().len() == 0,
            r.shape().len() == 0,
    {
        GenTensor { d: Vec::new(), dim: Vec::new() }
    }

    /// A tensor over a copy of the given buffer and shape. The buffer and the
    /// shape are taken as they are; most operations additionally need them to
    /// agree (see [`GenTensor::wf`]).
    pub fn new_raw(data: &[T], shape: &[usize]) -> (r: GenTensor<T>)
        ensures
            r.data() == data@,
            r.shape() == shape@,
    {
        let mut d: Vec<T> = Vec::new();
        let nd = data.len();
        let mut i: usize = 0;
        while i < nd
            invariant
                i <= nd,
                nd == data@.len(),
                d@ == data@.subrange(0, i as int),
            decreases nd - i,
        {
            d.push(data[i]);
            proof {
                assert(d@ =~= data@.subrange(0, i + 1 as int));
            }
            i = i + 1;
        }
        let mut dim: Vec<usize> = Vec::new();
        let ns = shape.len();
        let mut j: usize = 0;
        while j < ns
            invariant
                j <= ns,
                ns == shape@.len(),
                dim@ == shape@.subrange(0, j as int),
            decreases ns - j,
        {
            dim.push(shape[j]);
            proof {
                assert(dim@ =~= shape@.subrange(0, j + 1 as int));
            }
            j = j + 1;
        }
        proof {
            assert(d@ =~= data@);
            assert(dim@ =~= shape@);
        }
        GenTensor { d, dim }
    }

    /// The total number of elements a shape spans, provided no trailing
    /// product overflows.
    fn count_elems(shape: &[usize]) -> (r: usize)
        requires
            forall|i: int| 0 <= i <= shape@.len() ==> prod_from(shape@, i) <= usize::MAX,
        ensures
            r == prod_from(shape@, 0),
    {
        let n = shape.len();
        let mut acc: usize = 1;
        let mut i: usize = n;
        while i > 0
            invariant
                i <= n,
                n == shape@.len(),
                forall|k: int| 0 <= k <= shape@.len() ==> prod_from(shape@, k) <= usize::MAX,
                acc == prod_from(shape@, i as int),
            decreases i,
        {
            proof {
                lemma_prod_from_nonneg(shape@, i as int);
                assert(prod_from(shape@, (i - 1) as int) == shape@[(i - 1) as int] * prod_from(
                    shape@,
                    i as int,
                ));
            }
            acc = shape[i - 1] * acc;
            i = i - 1;
        }
        acc
    }

    /// A tensor of the given shape, with every element set by the zero of the
    /// element type.
    pub fn zeros(size: &[usize]) -> (r: GenTensor<T>)
        requires
            forall|i: int| 0 <= i <= size@.len() ==> prod_from(size@, i) <= usize::MAX,
        ensures
            r.shape() == size@,
            r.data().len() == prod_from(size@, 0),
            r.wf(),
    {
        let cap = Self::count_elems(size);
        let mut d: Vec<T> = Vec::new();
        let mut i: usize = 0;
        while i < cap
            invariant
                i <= cap,
                d@.len() == i,
            decreases cap - i,
        {
            d.push(el_zero());
            i = i + 1;
        }
        let r = Self::new_raw_move(d, size);
        r
    }

    /// Internal constructor from an owned buffer and a shape slice.
    fn new_raw_move(d: Vec<T>, shape: &[usize]) -> (r: GenTensor<T>)
        ensures
            r.data() == d@,
            r.shape() == shape@,
    {
        let mut dim: Vec<usize> = Vec::new();
        let ns = shape.len();
        let mut j: usize = 0;
        while j < ns
            invariant
                j <= ns,
                ns == shape@.len(),
                dim@ == shape@.subrange(0, j as int),
            decreases ns - j,
        {
            dim.push(shape[j]);
            proof {
                assert(dim@ =~= shape@.subrange(0, j + 1 as int));
            }
            j = j + 1;
        }
        proof {
            assert(dim@ =~= shape@);
        }
        GenTensor { d, dim }
    }

    /// A tensor shaped like this one, with every element set by the zero of
    /// the element type.
    pub fn zeros_like(&self) -> (r: GenTensor<T>)
        ensures
            r.shape() == self.shape(),
            r.data().len() == self.data().len(),
            self.wf() ==> r.wf(),
    {
        let n = self.d.len();
        let mut d: Vec<T> = Vec::new();
        let mut i: usize = 0;
        while i < n
            invariant
                i <= n,
                d@.len() == i,
            decreases n - i,
        {
            d.push(el_zero());
            i = i + 1;
        }
        GenTensor { d, dim: self.copy_shape() }
    }

    /// A copy of the shape vector.
    fn copy_shape(&self) -> (r: Vec<usize>)
        ensures
            r@ == self.shape(),
    {
        let ns = self.dim.len();
        let mut dim: Vec<usize> = Vec::new();
        let mut j: usize = 0;
        while j < ns
            invariant
                j <= ns,
                ns == self.shape().len(),
                dim@ == self.shape().subrange(0, j as int),
            decreases ns - j,
        {
            dim.push(self.dim[j]);
            proof {
                assert(dim@ =~= self.shape().subrange(0, j + 1 as int));
            }
            j = j + 1;
        }
        proof {
            assert(dim@ =~= self.shape());
        }
        dim
    }

    /// A copy of the element buffer.
    fn copy_data(&self) -> (r: Vec<T>)
        ensures
            r@ == self.data(),
    {
        let n = self.d.len();
        let mut d: Vec<T> = Vec::new();
        let mut i: usize = 0;
        while i < n
            invariant
                i <= n,
                n == self.data().len(),
                d@ == self.data().subrange(0, i as int),
            decreases n - i,
        {
            d.push(self.d[i]);
            proof {
                assert(d@ =~= self.data().subrange(0, i + 1 as int));
            }
            i = i + 1;
        }
        proof {
            assert(d@ =~= self.data());
        }
        d
    }

    /// A tensor of the given shape, with every element set by the one of the
    /// element type.
    pub fn ones(size: &[usize]) -> (r: GenTensor<T>)
        requires
            forall|i: int| 0 <= i <= size@.len() ==> prod_from(size@, i) <= usize::MAX,
        ensures
            r.shape() == size@,
            r.data().len() == prod_from(size@, 0),
            r.wf(),
    {
        let cap = Self::count_elems(size);
        let mut d: Vec<T> = Vec::new();
        let mut i: usize = 0;
        while i < cap
            invariant
                i <= cap,
                d@.len() == i,
            decreases cap - i,
        {
            d.push(el_one());
            i = i + 1;
        }
        Self::new_raw_move(d, size)
    }

    /// A tensor shaped like this one, with every element set to `v`.
    pub fn filled_like(&self, v: T) -> (r: GenTensor<T>)
        ensures
            r.shape() == self.shape(),
            r.data().len() == self.data().len(),
            forall|i: int| 0 <= i < r.data().len() ==> r.data()[i] == v,
            self.wf() ==> r.wf(),
    {
        let n = self.d.len();
        let mut d: Vec<T> = Vec::new();
        let mut i: usize = 0;
        while i < n
            invariant
                i <= n,
                d@.len() == i,
                forall|q: int| 0 <= q < i ==> d@[q] == v,
            decreases n - i,
        {
            d.push(v);
            i = i + 1;
        }
        GenTensor { d, dim: self.copy_shape() }
    }

    /// A tensor shaped like this one, with every element set by the one of
    /// the element type.
    pub fn ones_like(&self) -> (r: GenTensor<T>)
        ensures
            r.shape() == self.shape(),
            r.data().len() == self.data().len(),
            self.wf() ==> r.wf(),
    {
        let n = self.d.len();
        let mut d: Vec<T> = Vec::new();
        let mut i: usize = 0;
        while i < n
            invariant
                i <= n,
                d@.len() == i,
            decreases n - i,
        {
            d.push(el_one());
            i = i + 1;
        }
        GenTensor { d, dim: self.copy_shape() }
    }

    /// A one-dimensional tensor of `end` elements whose values count up from
    /// zero (each converted by the element type).
    pub fn arange(end: usize) -> (r: GenTensor<T>)
        ensures
            r.shape().len() == 1 && r.shape()[0] == end,
            r.data().len() == end,
            r.wf(),
    {
        let mut d: Vec<T> = Vec::new();
        let mut i: usize = 0;
        while i < end
            invariant
                i <= end,
                d@.len() == i,
            decreases end - i,
        {
            let v: T = match el_from_usize(i) {
                Some(v) => v,
                None => el_zero(),
            };
            d.push(v);
            i = i + 1;
        }
        let mut dim: Vec<usize> = Vec::new();
        dim.push(end);
        let r = GenTensor { d, dim };
        proof {
            assert(prod_from(r.shape(), 1) == 1);
            assert(prod_from(r.shape(), 0) == end * prod_from(r.shape(), 1));
            assert forall|i: int| 0 <= i <= r.shape().len() implies prod_from(r.shape(), i)
                <= usize::MAX by {
                if i == 0 {
                } else {
                    assert(i == 1);
                }
            }
        }
        r
    }

    /// A tensor of the given shape with unspecified element values (they are
    /// set by the zero of the element type; callers overwrite them).
    pub fn empty(shape: &[usize]) -> (r: GenTensor<T>)
        requires
            forall|i: int| 0 <= i <= shape@.len() ==> prod_from(shape@, i) <= usize::MAX,
        ensures
            r.shape() == shape@,
            r.data().len() == prod_from(shape@, 0),
            r.wf(),
    {
        Self::zeros(shape)
    }

    /// A tensor filled with the single value `v`.
    pub fn fill(v: T, shape: &[usize]) -> (r: GenTensor<T>)
        requires
            forall|i: int| 0 <= i <= shape@.len() ==> prod_from(shape@, i) <= usize::MAX,
        ensures
            r.shape() == shape@,
            r.data().len() == prod_from(shape@, 0),
            forall|i: int| 0 <= i < r.data().len() ==> r.data()[i] == v,
            r.wf(),
    {
        let cap = Self::count_elems(shape);
        let mut d: Vec<T> = Vec::new();
        let mut i: usize = 0;
        while i < cap
            invariant
                i <= cap,
                d@.len() == i,
                forall|k: int| 0 <= k < i ==> d@[k] == v,
            decreases cap - i,
        {
            d.push(v);
            i = i + 1;
        }
        Self::new_raw_move(d, shape)
    }

    /// The identity-like matrix of shape `[n, m]`: ones on the diagonal set
    /// by the element type, zeros elsewhere.
    pub fn eye(n: usize, m: usize) -> (r: GenTensor<T>)
        requires
            n * m <= usize::MAX,
        ensures
            r.shape().len() == 2 && r.shape()[0] == n && r.shape()[1] == m,
            r.data().len() == n * m,
            r.wf(),
    {
        let mut d: Vec<T> = Vec::new();
        let mut i: usize = 0;
        while i < n
            invariant
                i <= n,
                n * m <= usize::MAX,
                d@.len() == i * m,
            decreases n - i,
        {
            let mut j: usize = 0;
            proof {
                assert(i * m + m <= n * m) by (nonlinear_arith)
                    requires
                        i < n,
                        m >= 0,
                ;
            }
            while j < m
                invariant
                    j <= m,
                    i < n,
                    i * m + m <= n * m,
                    n * m <= usize::MAX,
                    d@.len() == i * m + j,
                decreases m - j,
            {
                if i == j {
                    d.push(el_one());
                } else {
                    d.push(el_zero());
                }
                j = j + 1;
            }
            i = i + 1;
            proof {
                assert(i * m == (i - 1) * m + m) by (nonlinear_arith);
            }
        }
        let mut dim: Vec<usize> = Vec::new();
        dim.push(n);
        dim.push(m);
        let r = GenTensor { d, dim };
        proof {
            let sh = r.shape();
            assert(sh.len() == 2 && sh[0] == n && sh[1] == m);
            assert(prod_from(sh, 2) == 1);
            assert(prod_from(sh, 1) == m * prod_from(sh, 2));
            assert(prod_from(sh, 0) == n * prod_from(sh, 1));
            assert(prod_from(sh, 1) == m as int);
            assert(prod_from(sh, 0) == n * m);
            assert forall|i: int| 0 <= i <= sh.len() implies prod_from(sh, i) <= usize::MAX by {
                if i == 1 && n > 0 {
                    assert(m <= n * m) by (nonlinear_arith)
                        requires
                            n >= 1,
                            m >= 0,
                    ;
                }
            }
        }
        r
    }

    /// The stride of each axis: the element count spanned by one step along
    /// it, with the rightmost axis at stride 1.
    pub fn stride(&self) -> (r: Vec<usize>)
        requires
            self.wf(),
        ensures
            r@.len() == self.shape().len(),
            forall|i: int| 0 <= i < r@.len() ==> r@[i] == prod_from(self.shape(), i + 1),
    {
        let dsize = self.dim.len();
        let mut r: Vec<usize> = Vec::new();
        let mut i: usize = dsize;
        while i > 0
            invariant
                i <= dsize,
                dsize == self.shape().len(),
                self.wf(),
                r@.len() == dsize - i,
                forall|k: int|
                    0 <= k < r@.len() ==> r@[k] == prod_from(self.shape(), dsize - k as int),
            decreases i,
        {
            let s: usize;
            if i == dsize {
                s = 1;
            } else {
                proof {
                    lemma_prod_from_nonneg(self.shape(), i + 1 as int);
                    assert(prod_from(self.shape(), i as int) == self.shape()[i as int] * prod_from(
                        self.shape(),
                        i + 1 as int,
                    ));
                    assert(r@[dsize - i - 1] == prod_from(self.shape(), i + 1 as int));
                }
                s = r[dsize - i - 1] * self.dim[i];
            }
            r.push(s);
            i = i - 1;
        }
        // the pushed strides run from the last axis backwards; reverse them
        let mut out: Vec<usize> = Vec::new();
        let mut k: usize = 0;
        while k < dsize
            invariant
                k <= dsize,
                dsize == self.shape().len(),
                r@.len() == dsize,
                forall|q: int| 0 <= q < dsize ==> r@[q] == prod_from(self.shape(), dsize - q as int),
                out@.len() == k,
                forall|q: int| 0 <= q < k ==> out@[q] == prod_from(self.shape(), q + 1),
            decreases dsize - k,
        {
            out.push(r[dsize - 1 - k]);
            k = k + 1;
        }
        out
    }

    /// The linear index of the in-range multi-index `o`.
    pub fn linear_index_of(&self, o: &[usize]) -> (r: usize)
        requires
            self.wf(),
            o@.len() == self.shape().len(),
            forall|i: int| 0 <= i < o@.len() ==> o@[i] < self.shape()[i],
        ensures
            r == lin_index(self.shape(), o@),
            r < self.data().len() || self.data().len() == 0,
    {
        proof {
            lemma_lin_from_bound(self.shape(), o@, 0);
            if self.data().len() == 0 {
                lemma_prod_from_nonneg(self.shape(), 0);
            }
        }
        let n = o.len();
        let mut acc: usize = 0;
        let mut i: usize = n;
        // accumulate from the rightmost axis: acc == lin_from(dims, o, i)
        while i > 0
            invariant
                i <= n,
                n == self.shape().len(),
                n == o@.len(),
                self.wf(),
                forall|k: int| 0 <= k < o@.len() ==> o@[k] < self.shape()[k],
                acc == lin_from(self.shape(), o@, i as int),
            decreases i,
        {
            proof {
                lemma_lin_from_bound(self.shape(), o@, i - 1 as int);
            }
            let s = Self::suffix_count(&self.dim, i);
            acc = o[i - 1] * s + acc;
            i = i - 1;
        }
        acc
    }

    /// The trailing element count `prod_from(shape, i)`.
    fn suffix_count(dim: &Vec<usize>, i: usize) -> (r: usize)
        requires
            i <= dim@.len(),
            forall|k: int| 0 <= k <= dim@.len() ==> prod_from(dim@, k) <= usize::MAX,
        ensures
            r == prod_from(dim@, i as int),
    {
        let n = dim.len();
        let mut acc: usize = 1;
        let mut k: usize = n;
        while k > i
            invariant
                i <= k <= n,
                n == dim@.len(),
                forall|q: int| 0 <= q <= dim@.len() ==> prod_from(dim@, q) <= usize::MAX,
                acc == prod_from(dim@, k as int),
            decreases k,
        {
            proof {
                lemma_prod_from_nonneg(dim@, k as int);
                assert(prod_from(dim@, (k - 1) as int) == dim@[(k - 1) as int] * prod_from(
                    dim@,
                    k as int,
                ));
            }
            acc = dim[k - 1] * acc;
            k = k - 1;
        }
        acc
    }

    /// Convert a linear index to the multi-index it addresses: the unique
    /// in-range position whose row-major linear index is `index`.
    pub fn index2dimpos(&self, index: usize) -> (r: Vec<usize>)
        requires
            self.wf(),
            index < self.data().len(),
        ensures
            r@.len() == self.shape().len(),
            forall|i: int| 0 <= i < r@.len() ==> r@[i] < self.shape()[i],
            lin_index(self.shape(), r@) == index,
    {
        proof {
            lemma_prod_from_pos(self.shape(), 0);
        }
        let n = self.dim.len();
        let mut r: Vec<usize> = Vec::new();
        let mut rem: usize = index;
        let mut i: usize = 0;
        while i < n
            invariant
                i <= n,
                n == self.shape().len(),
                self.wf(),
                self.data().len() > 0,
                forall|k: int| 0 <= k < n ==> self.shape()[k] > 0,
                r@.len() == i,
                forall|k: int| 0 <= k < i ==> r@[k] < self.shape()[k],
                rem < prod_from(self.shape(), i as int),
                lin_from(self.shape(), r@, 0) + rem == index,
            decreases n - i,
        {
            let s = Self::suffix_count(&self.dim, i + 1);
            proof {
                lemma_prod_from_pos(self.shape(), i + 1 as int);
            }
            let q = rem / s;
            let rem2 = rem % s;
            proof {
                let dims = self.shape();
                let si = prod_from(dims, i + 1 as int);
                assert(si == s as int);
                assert(q as int == rem as int / si && rem2 as int == rem as int % si);
                assert(rem == q * si + rem2 && 0 <= rem2 < si && q >= 0) by (nonlinear_arith)
                    requires
                        si > 0,
                        rem >= 0,
                        q as int == rem as int / si,
                        rem2 as int == rem as int % si,
                ;
                assert(q < dims[i as int]) by (nonlinear_arith)
                    requires
                        rem < dims[i as int] * si,
                        rem == q * si + rem2,
                        0 <= rem2 < si,
                        si > 0,
                        q >= 0,
                ;
            }
            let ghost rold = r@;
            r.push(q);
            rem = rem2;
            proof {
                let dims = self.shape();
                let rn = r@;
                lemma_lin_push(dims, rold, rn, 0, i as int, q);
            }
            i = i + 1;
        }
        proof {
            if n > 0 {
                assert(prod_from(self.shape(), n as int) == 1);
                assert(rem == 0);
            } else {
                assert(prod_from(self.shape(), 0) == 1);
                assert(index == 0 && rem == 0);
            }
        }
        r
    }

    /// Convert an in-range multi-index to the linear index it addresses.
    pub fn dimpos2index(&self, dimpos: &[usize]) -> (r: usize)
        requires
            self.wf(),
            dimpos@.len() == self.shape().len(),
            forall|i: int| 0 <= i < dimpos@.len() ==> dimpos@[i] < self.shape()[i],
        ensures
            r == lin_index(self.shape(), dimpos@),
    {
        self.linear_index_of(dimpos)
    }
}

/// Pushing digit `q` at position `i` (the current length of the position
/// prefix) adds exactly `q * stride(i)` to the linear value read from any
/// axis at or before `i`.
proof fn lemma_lin_push(
    dims: Seq<usize>,
    rold: Seq<usize>,
    rn: Seq<usize>,
    from: int,
    i: int,
    q: usize,
)
    requires
        rn.len() == rold.len() + 1,
        rold.len() == i,
        0 <= i,
        forall|p: int| 0 <= p < rold.len() ==> rn[p] == rold[p],
        rn[i] == q,
        0 <= from <= i,
    ensures
        lin_from(dims, rn, from) == lin_from(dims, rold, from) + q * prod_from(dims, i + 1),
    decreases i - from,
{
    if from == i {
        assert(lin_from(dims, rn, i + 1) == 0);
        assert(lin_from(dims, rold, i) == 0);
    } else {
        lemma_lin_push(dims, rold, rn, from + 1, i, q);
    }
}


impl<T: num_traits::Float> GenTensor<T> {
    /// The value at the in-range multi-index `o`.
    pub fn get(&self, o: &[usize]) -> (r: T)
        requires
            self.wf(),
            o@.len() == self.shape().len(),
            forall|i: int| 0 <= i < o@.len() ==> o@[i] < self.shape()[i],
        ensures
            r == self.data()[lin_index(self.shape(), o@)],
    {
        let idx = self.linear_index_of(o);
        proof {
            lemma_lin_from_bound(self.shape(), o@, 0);
        }
        self.d[idx]
    }

    /// Overwrite the value at the in-range multi-index `o`.
    pub fn set(&mut self, o: &[usize], v: T)
        requires
            old(self).wf(),
            o@.len() == old(self).shape().len(),
            forall|i: int| 0 <= i < o@.len() ==> o@[i] < old(self).shape()[i],
        ensures
            final(self).shape() == old(self).shape(),
            final(self).data() == old(self).data().update(lin_index(old(self).shape(), o@), v),
            final(self).wf(),
    {
        let idx = self.linear_index_of(o);
        proof {
            lemma_lin_from_bound(self.shape(), o@, 0);
        }
        self.d[idx] = v;
    }

    /// Overwrite the value at linear index `o`.
    pub fn set_1d(&mut self, o: usize, v: T)
        requires
            o < old(self).data().len(),
        ensures
            final(self).shape() == old(self).shape(),
            final(self).data() == old(self).data().update(o as int, v),
            old(self).wf() ==> final(self).wf(),
    {
        self.d[o] = v;
    }

    /// A mutable reference to the value at the in-range multi-index `o`.
    pub fn get_mut(&mut self, o: &[usize]) -> (r: &mut T)
        requires
            old(self).wf(),
            o@.len() == old(self).shape().len(),
            forall|i: int| 0 <= i < o@.len() ==> o@[i] < old(self).shape()[i],
        ensures
            *r == old(self).data()[lin_index(old(self).shape(), o@)],
            final(self).shape() == old(self).shape(),
            final(self).data() == old(self).data().update(
                lin_index(old(self).shape(), o@),
                *final(r),
            ),
            final(self).wf(),
    {
        let idx = self.linear_index_of(o);
        proof {
            lemma_lin_from_bound(self.shape(), o@, 0);
        }
        &mut self.d[idx]
    }

    /// A copy of the underlying element buffer.
    pub fn get_raw(&self) -> (r: Vec<T>)
        ensures
            r@ == self.data(),
    {
        self.copy_data()
    }

    /// The elements narrowed to bytes; `None` when any element has no byte
    /// representation.
    pub fn get_u8(&self) -> (r: Option<Vec<u8>>)
        ensures
            r is Some ==> r->Some_0@.len() == self.data().len(),
    {
        let n = self.d.len();
        let mut out: Vec<u8> = Vec::new();
        let mut i: usize = 0;
        while i < n
            invariant
                i <= n,
                n == self.data().len(),
                out@.len() == i,
            decreases n - i,
        {
            match el_to_u8(self.d[i]) {
                Some(b) => out.push(b),
                None => {
                    return None;
                },
            }
            i = i + 1;
        }
        Some(out)
    }

    /// The single value of a scalar-like tensor (at most one dimension, one
    /// element).
    pub fn get_scale(&self) -> (r: T)
        requires
            self.shape().len() <= 1,
            self.data().len() == 1,
        ensures
            r == self.data()[0],
    {
        self.d[0]
    }

    /// A one-element tensor holding the leftmost dimension's size.
    pub fn get_n(&self) -> (r: GenTensor<T>)
        requires
            self.shape().len() >= 1,
        ensures
            r.shape() =~= seq![1usize],
            r.data().len() == 1,
            r.wf(),
    {
        self.dim_scalar(self.dim[0])
    }

    /// A one-element tensor holding the second dimension's size (the channel
    /// count in NCHW layout).
    pub fn get_c(&self) -> (r: GenTensor<T>)
        requires
            self.shape().len() >= 2,
        ensures
            r.shape() =~= seq![1usize],
            r.data().len() == 1,
            r.wf(),
    {
        self.dim_scalar(self.dim[1])
    }

    /// A one-element tensor holding the depth dimension's size; the tensor
    /// must have the five dimensions of NCDHW layout.
    pub fn get_d(&self) -> (r: GenTensor<T>)
        requires
            self.shape().len() == 5,
        ensures
            r.shape() =~= seq![1usize],
            r.data().len() == 1,
            r.wf(),
    {
        self.dim_scalar(self.dim[2])
    }

    /// A one-element tensor holding the height dimension's size, for NCHW or
    /// NCDHW layout.
    pub fn get_h(&self) -> (r: GenTensor<T>)
        requires
            self.shape().len() == 4 || self.shape().len() == 5,
        ensures
            r.shape() =~= seq![1usize],
            r.data().len() == 1,
            r.wf(),
    {
        if self.dim.len() == 5 {
            self.dim_scalar(self.dim[3])
        } else {
            self.dim_scalar(self.dim[2])
        }
    }

    /// A one-element tensor holding the width dimension's size, for NCHW or
    /// NCDHW layout.
    pub fn get_w(&self) -> (r: GenTensor<T>)
        requires
            self.shape().len() == 4 || self.shape().len() == 5,
        ensures
            r.shape() =~= seq![1usize],
            r.data().len() == 1,
            r.wf(),
    {
        if self.dim.len() == 5 {
            self.dim_scalar(self.dim[4])
        } else {
            self.dim_scalar(self.dim[3])
        }
    }

    /// A one-element tensor holding the given dimension size, converted by
    /// the element type.
    fn dim_scalar(&self, v: usize) -> (r: GenTensor<T>)
        ensures
            r.shape() =~= seq![1usize],
            r.data().len() == 1,
            r.wf(),
    {
        let e: T = match el_from_usize(v) {
            Some(e) => e,
            None => el_zero(),
        };
        let mut d: Vec<T> = Vec::new();
        d.push(e);
        let mut dim: Vec<usize> = Vec::new();
        dim.push(1);
        let r = GenTensor { d, dim };
        proof {
            assert(prod_from(r.shape(), 1) == 1);
            assert(prod_from(r.shape(), 0) == 1 * prod_from(r.shape(), 1));
            assert forall|i: int| 0 <= i <= r.shape().len() implies prod_from(r.shape(), i)
                <= usize::MAX by {
                if i == 0 {
                } else {
                    assert(i == 1);
                }
            }
        }
        r
    }

    /// The shape.
    pub fn size(&self) -> (r: &Vec<usize>)
        ensures
            r@ == self.shape(),
    {
        &self.dim
    }

    /// The element buffer.
    pub fn get_data(&self) -> (r: &Vec<T>)
        ensures
            r@ == self.data(),
    {
        &self.d
    }

    /// A mutable reference to the element buffer; the shape is untouched.
    pub fn get_data_mut(&mut self) -> (r: &mut Vec<T>)
        ensures
            r@ == old(self).data(),
            final(self).data() == final(r)@,
            final(self).shape() == old(self).shape(),
    {
        &mut self.d
    }

    /// The total number of elements.
    pub fn numel(&self) -> (r: usize)
        ensures
            r == self.data().len(),
    {
        self.d.len()
    }

    /// A one-element tensor holding the total number of elements, converted
    /// by the element type.
    pub fn numel_tensor(&self) -> (r: GenTensor<T>)
        ensures
            r.shape() =~= seq![1usize],
            r.data().len() == 1,
            r.wf(),
    {
        self.dim_scalar(self.d.len())
    }
}

impl<T: Copy> Clone for GenTensor<T> {
    /// An element-for-element copy with the same shape.
    fn clone(&self) -> (r: Self)
        ensures
            r.data() == self.data(),
            r.shape() == self.shape(),
    {
        let n = self.d.len();
        let mut d: Vec<T> = Vec::new();
        let mut i: usize = 0;
        while i < n
            invariant
                i <= n,
                n == self.d@.len(),
                d@ == self.d@.subrange(0, i as int),
            decreases n - i,
        {
            d.push(self.d[i]);
            proof {
                assert(d@ =~= self.d@.subrange(0, i + 1 as int));
            }
            i = i + 1;
        }
        let ns = self.dim.len();
        let mut dim: Vec<usize> = Vec::new();
        let mut j: usize = 0;
        while j < ns
            invariant
                j <= ns,
                ns == self.dim@.len(),
                dim@ == self.dim@.subrange(0, j as int),
            decreases ns - j,
        {
            dim.push(self.dim[j]);
            proof {
                assert(dim@ =~= self.dim@.subrange(0, j + 1 as int));
            }
            j = j + 1;
        }
        proof {
            assert(d@ =~= self.d@);
            assert(dim@ =~= self.dim@);
        }
        GenTensor { d, dim }
    }
}


impl<T: num_traits::Float> GenTensor<T> {
    /// Apply `closure` to every element, keeping the shape.
    pub fn _pointwise<F: Fn(&T) -> T>(&self, closure: F) -> (r: GenTensor<T>)
        requires
            forall|x: &T| #[trigger] closure.requires((x,)),
        ensures
            r.shape() == self.shape(),
            r.data().len() == self.data().len(),
            self.wf() ==> r.wf(),
    {
        let n = self.d.len();
        let mut d: Vec<T> = Vec::new();
        let mut i: usize = 0;
        while i < n
            invariant
                i <= n,
                n == self.data().len(),
                d@.len() == i,
                forall|x: &T| #[trigger] closure.requires((x,)),
            decreases n - i,
        {
            let v = closure(&self.d[i]);
            d.push(v);
            i = i + 1;
        }
        GenTensor { d, dim: self.copy_shape() }
    }

    /// Element-wise absolute value, keeping the shape.
    pub fn abs(&self) -> (r: GenTensor<T>)
        ensures
            r.shape() == self.shape(),
            r.data().len() == self.data().len(),
            self.wf() ==> r.wf(),
    {
        let n = self.d.len();
        let mut d: Vec<T> = Vec::new();
        let mut i: usize = 0;
        while i < n
            invariant
                i <= n,
                n == self.data().len(),
                d@.len() == i,
            decreases n - i,
        {
            d.push(el_abs(self.d[i]));
            i = i + 1;
        }
        GenTensor { d, dim: self.copy_shape() }
    }

    /// Element-wise arc cosine, keeping the shape.
    pub fn acos(&self) -> (r: GenTensor<T>)
        ensures
            r.shape() == self.shape(),
            r.data().len() == self.data().len(),
            self.wf() ==> r.wf(),
    {
        let n = self.d.len();
        let mut d: Vec<T> = Vec::new();
        let mut i: usize = 0;
        while i < n
            invariant
                i <= n,
                n == self.data().len(),
                d@.len() == i,
            decreases n - i,
        {
            d.push(el_acos(self.d[i]));
            i = i + 1;
        }
        GenTensor { d, dim: self.copy_shape() }
    }

    /// Element-wise arc sine, keeping the shape.
    pub fn asin(&self) -> (r: GenTensor<T>)
        ensures
            r.shape() == self.shape(),
            r.data().len() == self.data().len(),
            self.wf() ==> r.wf(),
    {
        let n = self.d.len();
        let mut d: Vec<T> = Vec::new();
        let mut i: usize = 0;
        while i < n
            invariant
                i <= n,
                n == self.data().len(),
                d@.len() == i,
            decreases n - i,
        {
            d.push(el_asin(self.d[i]));
            i = i + 1;
        }
        GenTensor { d, dim: self.copy_shape() }
    }

    /// Element-wise arc tangent, keeping the shape.
    pub fn atan(&self) -> (r: GenTensor<T>)
        ensures
            r.shape() == self.shape(),
            r.data().len() == self.data().len(),
            self.wf() ==> r.wf(),
    {
        let n = self.d.len();
        let mut d: Vec<T> = Vec::new();
        let mut i: usize = 0;
        while i < n
            invariant
                i <= n,
                n == self.data().len(),
                d@.len() == i,
            decreases n - i,
        {
            d.push(el_atan(self.d[i]));
            i = i + 1;
        }
        GenTensor { d, dim: self.copy_shape() }
    }

    /// Element-wise rounding up, keeping the shape.
    pub fn ceil(&self) -> (r: GenTensor<T>)
        ensures
            r.shape() == self.shape(),
            r.data().len() == self.data().len(),
            self.wf() ==> r.wf(),
    {
        let n = self.d.len();
        let mut d: Vec<T> = Vec::new();
        let mut i: usize = 0;
        while i < n
            invariant
                i <= n,
                n == self.data().len(),
                d@.len() == i,
            decreases n - i,
        {
            d.push(el_ceil(self.d[i]));
            i = i + 1;
        }
        GenTensor { d, dim: self.copy_shape() }
    }

    /// Element-wise cosine, keeping the shape.
    pub fn cos(&self) -> (r: GenTensor<T>)
        ensures
            r.shape() == self.shape(),
            r.data().len() == self.data().len(),
            self.wf() ==> r.wf(),
    {
        let n = self.d.len();
        let mut d: Vec<T> = Vec::new();
        let mut i: usize = 0;
        while i < n
            invariant
                i <= n,
                n == self.data().len(),
                d@.len() == i,
            decreases n - i,
        {
            d.push(el_cos(self.d[i]));
            i = i + 1;
        }
        GenTensor { d, dim: self.copy_shape() }
    }

    /// Element-wise hyperbolic cosine, keeping the shape.
    pub fn cosh(&self) -> (r: GenTensor<T>)
        ensures
            r.shape() == self.shape(),
            r.data().len() == self.data().len(),
            self.wf() ==> r.wf(),
    {
        let n = self.d.len();
        let mut d: Vec<T> = Vec::new();
        let mut i: usize = 0;
        while i < n
            invariant
                i <= n,
                n == self.data().len(),
                d@.len() == i,
            decreases n - i,
        {
            d.push(el_cosh(self.d[i]));
            i = i + 1;
        }
        GenTensor { d, dim: self.copy_shape() }
    }

    /// Element-wise exponential, keeping the shape.
    pub fn exp(&self) -> (r: GenTensor<T>)
        ensures
            r.shape() == self.shape(),
            r.data().len() == self.data().len(),
            self.wf() ==> r.wf(),
    {
        let n = self.d.len();
        let mut d: Vec<T> = Vec::new();
        let mut i: usize = 0;
        while i < n
            invariant
                i <= n,
                n == self.data().len(),
                d@.len() == i,
            decreases n - i,
        {
            d.push(el_exp(self.d[i]));
            i = i + 1;
        }
        GenTensor { d, dim: self.copy_shape() }
    }

    /// Element-wise exponential minus one, keeping the shape.
    pub fn expm1(&self) -> (r: GenTensor<T>)
        ensures
            r.shape() == self.shape(),
            r.data().len() == self.data().len(),
            self.wf() ==> r.wf(),
    {
        let n = self.d.len();
        let mut d: Vec<T> = Vec::new();
        let mut i: usize = 0;
        while i < n
            invariant
                i <= n,
                n == self.data().len(),
                d@.len() == i,
            decreases n - i,
        {
            d.push(el_exp_m1(self.d[i]));
            i = i + 1;
        }
        GenTensor { d, dim: self.copy_shape() }
    }

    /// Element-wise rounding down, keeping the shape.
    pub fn floor(&self) -> (r: GenTensor<T>)
        ensures
            r.shape() == self.shape(),
            r.data().len() == self.data().len(),
            self.wf() ==> r.wf(),
    {
        let n = self.d.len();
        let mut d: Vec<T> = Vec::new();
        let mut i: usize = 0;
        while i < n
            invariant
                i <= n,
                n == self.data().len(),
                d@.len() == i,
            decreases n - i,
        {
            d.push(el_floor(self.d[i]));
            i = i + 1;
        }
        GenTensor { d, dim: self.copy_shape() }
    }

    /// Element-wise fractional part, keeping the shape.
    pub fn frac(&self) -> (r: GenTensor<T>)
        ensures
            r.shape() == self.shape(),
            r.data().len() == self.data().len(),
            self.wf() ==> r.wf(),
    {
        let n = self.d.len();
        let mut d: Vec<T> = Vec::new();
        let mut i: usize = 0;
        while i < n
            invariant
                i <= n,
                n == self.data().len(),
                d@.len() == i,
            decreases n - i,
        {
            d.push(el_fract(self.d[i]));
            i = i + 1;
        }
        GenTensor { d, dim: self.copy_shape() }
    }

    /// Element-wise natural logarithm, keeping the shape.
    pub fn log(&self) -> (r: GenTensor<T>)
        ensures
            r.shape() == self.shape(),
            r.data().len() == self.data().len(),
            self.wf() ==> r.wf(),
    {
        let n = self.d.len();
        let mut d: Vec<T> = Vec::new();
        let mut i: usize = 0;
        while i < n
            invariant
                i <= n,
                n == self.data().len(),
                d@.len() == i,
            decreases n - i,
        {
            d.push(el_ln(self.d[i]));
            i = i + 1;
        }
        GenTensor { d, dim: self.copy_shape() }
    }

    /// Element-wise base-10 logarithm, keeping the shape.
    pub fn log10(&self) -> (r: GenTensor<T>)
        ensures
            r.shape() == self.shape(),
            r.data().len() == self.data().len(),
            self.wf() ==> r.wf(),
    {
        let n = self.d.len();
        let mut d: Vec<T> = Vec::new();
        let mut i: usize = 0;
        while i < n
            invariant
                i <= n,
                n == self.data().len(),
                d@.len() == i,
            decreases n - i,
        {
            d.push(el_log10(self.d[i]));
            i = i + 1;
        }
        GenTensor { d, dim: self.copy_shape() }
    }

    /// Element-wise logarithm of one plus the value, keeping the shape.
    pub fn log1p(&self) -> (r: GenTensor<T>)
        ensures
            r.shape() == self.shape(),
            r.data().len() == self.data().len(),
            self.wf() ==> r.wf(),
    {
        let n = self.d.len();
        let mut d: Vec<T> = Vec::new();
        let mut i: usize = 0;
        while i < n
            invariant
                i <= n,
                n == self.data().len(),
                d@.len() == i,
            decreases n - i,
        {
            d.push(el_ln_1p(self.d[i]));
            i = i + 1;
        }
        GenTensor { d, dim: self.copy_shape() }
    }

    /// Element-wise base-2 logarithm, keeping the shape.
    pub fn log2(&self) -> (r: GenTensor<T>)
        ensures
            r.shape() == self.shape(),
            r.data().len() == self.data().len(),
            self.wf() ==> r.wf(),
    {
        let n = self.d.len();
        let mut d: Vec<T> = Vec::new();
        let mut i: usize = 0;
        while i < n
            invariant
                i <= n,
                n == self.data().len(),
                d@.len() == i,
            decreases n - i,
        {
            d.push(el_log2(self.d[i]));
            i = i + 1;
        }
        GenTensor { d, dim: self.copy_shape() }
    }

    /// Element-wise reciprocal, keeping the shape.
    pub fn reciprocal(&self) -> (r: GenTensor<T>)
        ensures
            r.shape() == self.shape(),
            r.data().len() == self.data().len(),
            self.wf() ==> r.wf(),
    {
        let n = self.d.len();
        let mut d: Vec<T> = Vec::new();
        let mut i: usize = 0;
        while i < n
            invariant
                i <= n,
                n == self.data().len(),
                d@.len() == i,
            decreases n - i,
        {
            d.push(el_recip(self.d[i]));
            i = i + 1;
        }
        GenTensor { d, dim: self.copy_shape() }
    }

    /// Element-wise rounding to nearest, keeping the shape.
    pub fn round(&self) -> (r: GenTensor<T>)
        ensures
            r.shape() == self.shape(),
            r.data().len() == self.data().len(),
            self.wf() ==> r.wf(),
    {
        let n = self.d.len();
        let mut d: Vec<T> = Vec::new();
        let mut i: usize = 0;
        while i < n
            invariant
                i <= n,
                n == self.data().len(),
                d@.len() == i,
            decreases n - i,
        {
            d.push(el_round(self.d[i]));
            i = i + 1;
        }
        GenTensor { d, dim: self.copy_shape() }
    }

    /// Element-wise square root, keeping the shape.
    pub fn sqrt(&self) -> (r: GenTensor<T>)
        ensures
            r.shape() == self.shape(),
            r.data().len() == self.data().len(),
            self.wf() ==> r.wf(),
    {
        let n = self.d.len();
        let mut d: Vec<T> = Vec::new();
        let mut i: usize = 0;
        while i < n
            invariant
                i <= n,
                n == self.data().len(),
                d@.len() == i,
            decreases n - i,
        {
            d.push(el_sqrt(self.d[i]));
            i = i + 1;
        }
        GenTensor { d, dim: self.copy_shape() }
    }

    /// Element-wise sine, keeping the shape.
    pub fn sin(&self) -> (r: GenTensor<T>)
        ensures
            r.shape() == self.shape(),
            r.data().len() == self.data().len(),
            self.wf() ==> r.wf(),
    {
        let n = self.d.len();
        let mut d: Vec<T> = Vec::new();
        let mut i: usize = 0;
        while i < n
            invariant
                i <= n,
                n == self.data().len(),
                d@.len() == i,
            decreases n - i,
        {
            d.push(el_sin(self.d[i]));
            i = i + 1;
        }
        GenTensor { d, dim: self.copy_shape() }
    }

    /// Element-wise hyperbolic sine, keeping the shape.
    pub fn sinh(&self) -> (r: GenTensor<T>)
        ensures
            r.shape() == self.shape(),
            r.data().len() == self.data().len(),
            self.wf() ==> r.wf(),
    {
        let n = self.d.len();
        let mut d: Vec<T> = Vec::new();
        let mut i: usize = 0;
        while i < n
            invariant
                i <= n,
                n == self.data().len(),
                d@.len() == i,
            decreases n - i,
        {
            d.push(el_sinh(self.d[i]));
            i = i + 1;
        }
        GenTensor { d, dim: self.copy_shape() }
    }

    /// Element-wise tangent, keeping the shape.
    pub fn tan(&self) -> (r: GenTensor<T>)
        ensures
            r.shape() == self.shape(),
            r.data().len() == self.data().len(),
            self.wf() ==> r.wf(),
    {
        let n = self.d.len();
        let mut d: Vec<T> = Vec::new();
        let mut i: usize = 0;
        while i < n
            invariant
                i <= n,
                n == self.data().len(),
                d@.len() == i,
            decreases n - i,
        {
            d.push(el_tan(self.d[i]));
            i = i + 1;
        }
        GenTensor { d, dim: self.copy_shape() }
    }

    /// Element-wise hyperbolic tangent, keeping the shape.
    pub fn tanh(&self) -> (r: GenTensor<T>)
        ensures
            r.shape() == self.shape(),
            r.data().len() == self.data().len(),
            self.wf() ==> r.wf(),
    {
        let n = self.d.len();
        let mut d: Vec<T> = Vec::new();
        let mut i: usize = 0;
        while i < n
            invariant
                i <= n,
                n == self.data().len(),
                d@.len() == i,
            decreases n - i,
        {
            d.push(el_tanh(self.d[i]));
            i = i + 1;
        }
        GenTensor { d, dim: self.copy_shape() }
    }

    /// Element-wise truncation, keeping the shape.
    pub fn trunc(&self) -> (r: GenTensor<T>)
        ensures
            r.shape() == self.shape(),
            r.data().len() == self.data().len(),
            self.wf() ==> r.wf(),
    {
        let n = self.d.len();
        let mut d: Vec<T> = Vec::new();
        let mut i: usize = 0;
        while i < n
            invariant
                i <= n,
                n == self.data().len(),
                d@.len() == i,
            decreases n - i,
        {
            d.push(el_trunc(self.d[i]));
            i = i + 1;
        }
        GenTensor { d, dim: self.copy_shape() }
    }

    /// Element-wise clamp into `[min, max]`, keeping the shape.
    pub fn clamp(&self, min: T, max: T) -> (r: GenTensor<T>)
        ensures
            r.shape() == self.shape(),
            r.data().len() == self.data().len(),
            self.wf() ==> r.wf(),
    {
        let n = self.d.len();
        let mut d: Vec<T> = Vec::new();
        let mut i: usize = 0;
        while i < n
            invariant
                i <= n,
                n == self.data().len(),
                d@.len() == i,
            decreases n - i,
        {
            let x = self.d[i];
            let v: T = if el_lt(x, min) {
                min
            } else if el_le(x, max) {
                x
            } else {
                max
            };
            d.push(v);
            i = i + 1;
        }
        GenTensor { d, dim: self.copy_shape() }
    }

    /// Element-wise negation, keeping the shape.
    pub fn neg(&self) -> (r: GenTensor<T>)
        ensures
            r.shape() == self.shape(),
            r.data().len() == self.data().len(),
            self.wf() ==> r.wf(),
    {
        let n = self.d.len();
        let mut d: Vec<T> = Vec::new();
        let mut i: usize = 0;
        while i < n
            invariant
                i <= n,
                n == self.data().len(),
                d@.len() == i,
            decreases n - i,
        {
            d.push(el_mul(self.d[i], el_sub(el_zero(), el_one())));
            i = i + 1;
        }
        GenTensor { d, dim: self.copy_shape() }
    }

    /// Element-wise power with exponent `n`, keeping the shape.
    pub fn pow(&self, n: T) -> (r: GenTensor<T>)
        ensures
            r.shape() == self.shape(),
            r.data().len() == self.data().len(),
            self.wf() ==> r.wf(),
    {
        let cnt = self.d.len();
        let mut d: Vec<T> = Vec::new();
        let mut i: usize = 0;
        while i < cnt
            invariant
                i <= cnt,
                cnt == self.data().len(),
                d@.len() == i,
            decreases cnt - i,
        {
            d.push(el_powf(self.d[i], n));
            i = i + 1;
        }
        GenTensor { d, dim: self.copy_shape() }
    }

    /// Element-wise square root divided by the value, keeping the shape.
    pub fn rsqrt(&self) -> (r: GenTensor<T>)
        ensures
            r.shape() == self.shape(),
            r.data().len() == self.data().len(),
            self.wf() ==> r.wf(),
    {
        let n = self.d.len();
        let mut d: Vec<T> = Vec::new();
        let mut i: usize = 0;
        while i < n
            invariant
                i <= n,
                n == self.data().len(),
                d@.len() == i,
            decreases n - i,
        {
            d.push(el_div(el_sqrt(self.d[i]), self.d[i]));
            i = i + 1;
        }
        GenTensor { d, dim: self.copy_shape() }
    }

    /// Element-wise square, keeping the shape.
    pub fn square(&self) -> (r: GenTensor<T>)
        ensures
            r.shape() == self.shape(),
            r.data().len() == self.data().len(),
            self.wf() ==> r.wf(),
    {
        let n = self.d.len();
        let mut d: Vec<T> = Vec::new();
        let mut i: usize = 0;
        while i < n
            invariant
                i <= n,
                n == self.data().len(),
                d@.len() == i,
            decreases n - i,
        {
            d.push(el_mul(self.d[i], self.d[i]));
            i = i + 1;
        }
        GenTensor { d, dim: self.copy_shape() }
    }

    /// Element-wise logistic sigmoid, computed on the numerically stable
    /// branch for each sign, keeping the shape.
    pub fn sigmoid(&self) -> (r: GenTensor<T>)
        ensures
            r.shape() == self.shape(),
            r.data().len() == self.data().len(),
            self.wf() ==> r.wf(),
    {
        let n = self.d.len();
        let mut d: Vec<T> = Vec::new();
        let mut i: usize = 0;
        while i < n
            invariant
                i <= n,
                n == self.data().len(),
                d@.len() == i,
            decreases n - i,
        {
            let x = self.d[i];
            let v: T = if el_gt(x, el_zero()) {
                el_div(el_one(), el_add(el_one(), el_exp(el_mul(x, el_sub(el_zero(), el_one())))))
            } else {
                el_div(el_exp(x), el_add(el_one(), el_exp(x)))
            };
            d.push(v);
            i = i + 1;
        }
        GenTensor { d, dim: self.copy_shape() }
    }

    /// Element-wise sign: zero for zero, one for positive, minus one for
    /// negative, keeping the shape.
    pub fn sign(&self) -> (r: GenTensor<T>)
        ensures
            r.shape() == self.shape(),
            r.data().len() == self.data().len(),
            self.wf() ==> r.wf(),
    {
        let n = self.d.len();
        let mut d: Vec<T> = Vec::new();
        let mut i: usize = 0;
        while i < n
            invariant
                i <= n,
                n == self.data().len(),
                d@.len() == i,
            decreases n - i,
        {
            let x = self.d[i];
            let v: T = if el_eq(x, el_zero()) {
                el_zero()
            } else if el_gt(x, el_zero()) {
                el_one()
            } else {
                el_sub(el_zero(), el_one())
            };
            d.push(v);
            i = i + 1;
        }
        GenTensor { d, dim: self.copy_shape() }
    }

    /// Element-wise `log(1 + exp(x))` on numerically stable branches, keeping
    /// the shape.
    pub fn log1pexp(&self) -> (r: GenTensor<T>)
        ensures
            r.shape() == self.shape(),
            r.data().len() == self.data().len(),
            self.wf() ==> r.wf(),
    {
        let t37: T = match el_from_usize(37) {
            Some(v) => v,
            None => el_zero(),
        };
        let t18: T = match el_from_usize(18) {
            Some(v) => v,
            None => el_zero(),
        };
        let t333: T = match el_from_usize(333) {
            Some(v) => v,
            None => el_zero(),
        };
        let t10: T = match el_from_usize(10) {
            Some(v) => v,
            None => el_one(),
        };
        let lo = el_sub(el_zero(), t37);
        let lo2 = el_sub(el_zero(), t18);
        let hi = el_div(t333, t10);
        let n = self.d.len();
        let mut d: Vec<T> = Vec::new();
        let mut i: usize = 0;
        while i < n
            invariant
                i <= n,
                n == self.data().len(),
                d@.len() == i,
            decreases n - i,
        {
            let x = self.d[i];
            let v: T = if el_le(x, lo) {
                el_exp(x)
            } else if el_gt(x, lo) && el_le(x, t18) {
                el_ln_1p(el_exp(x))
            } else if el_gt(x, lo2) && el_le(x, hi) {
                el_add(x, el_exp(el_mul(x, el_sub(el_zero(), el_one()))))
            } else {
                x
            };
            d.push(v);
            i = i + 1;
        }
        GenTensor { d, dim: self.copy_shape() }
    }
}


impl<T: num_traits::Float> GenTensor<T> {
    /// The right-hand operand broadcasts onto this tensor: equal element
    /// counts, or a single-element right-hand side, or a right-hand block
    /// matching the trailing dimensions (repeated across the rest).
    pub open spec fn broadcast_ok(&self, o: &GenTensor<T>) -> bool {
        ||| self.data().len() == o.data().len()
        ||| (o.shape().len() == 1 && o.shape()[0] == 1 && o.data().len() >= 1)
        ||| {
            &&& self.data().len() >= o.data().len()
            &&& self.shape().len() > o.shape().len()
            &&& o.data().len() > 0
            &&& forall|i: int|
                0 <= i < o.shape().len() ==> #[trigger] o.shape()[o.shape().len() - 1 - i]
                    == self.shape()[self.shape().len() - 1 - i]
        }
    }

    /// Combine with `o` element by element under right-hand broadcast: a
    /// single-element right side pairs with every element, a shorter right
    /// side repeats block-wise.
    pub fn _right_broadcast<F: Fn(&T, &T) -> T>(&self, o: &GenTensor<T>, closure: F) -> (r:
        GenTensor<T>)
        requires
            self.broadcast_ok(o),
            forall|x: &T, y: &T| #[trigger] closure.requires((x, y)),
        ensures
            r.shape() == self.shape(),
            r.data().len() == self.data().len(),
            self.wf() ==> r.wf(),
    {
        let n = self.d.len();
        let mut d: Vec<T> = Vec::new();
        if n == o.d.len() {
            let mut i: usize = 0;
            while i < n
                invariant
                    i <= n,
                    n == self.data().len(),
                    n == o.data().len(),
                    d@.len() == i,
                    forall|x: &T, y: &T| #[trigger] closure.requires((x, y)),
                decreases n - i,
            {
                let v = closure(&self.d[i], &o.d[i]);
                d.push(v);
                i = i + 1;
            }
        } else if o.dim.len() == 1 && o.dim[0] == 1 {
            let mut i: usize = 0;
            while i < n
                invariant
                    i <= n,
                    n == self.data().len(),
                    o.data().len() >= 1,
                    d@.len() == i,
                    forall|x: &T, y: &T| #[trigger] closure.requires((x, y)),
                decreases n - i,
            {
                let v = closure(&self.d[i], &o.d[0]);
                d.push(v);
                i = i + 1;
            }
        } else {
            let m = o.d.len();
            let mut index: usize = 0;
            let mut i: usize = 0;
            while i < n
                invariant
                    i <= n,
                    n == self.data().len(),
                    m == o.data().len(),
                    m > 0,
                    index < m,
                    d@.len() == i,
                    forall|x: &T, y: &T| #[trigger] closure.requires((x, y)),
                decreases n - i,
            {
                let v = closure(&self.d[i], &o.d[index]);
                d.push(v);
                index = index + 1;
                if index >= m {
                    index = 0;
                }
                i = i + 1;
            }
        }
        GenTensor { d, dim: self.copy_shape() }
    }

    /// Element-wise addition with right-hand broadcast.
    pub fn add(&self, o: &GenTensor<T>) -> (r: GenTensor<T>)
        requires
            self.broadcast_ok(o),
        ensures
            r.shape() == self.shape(),
            r.data().len() == self.data().len(),
            self.wf() ==> r.wf(),
    {
        self._right_broadcast(o, |x: &T, y: &T| -> T { el_add(*x, *y) })
    }

    /// Element-wise subtraction with right-hand broadcast.
    pub fn sub(&self, o: &GenTensor<T>) -> (r: GenTensor<T>)
        requires
            self.broadcast_ok(o),
        ensures
            r.shape() == self.shape(),
            r.data().len() == self.data().len(),
            self.wf() ==> r.wf(),
    {
        self._right_broadcast(o, |x: &T, y: &T| -> T { el_sub(*x, *y) })
    }

    /// Element-wise multiplication with right-hand broadcast.
    pub fn mul(&self, o: &GenTensor<T>) -> (r: GenTensor<T>)
        requires
            self.broadcast_ok(o),
        ensures
            r.shape() == self.shape(),
            r.data().len() == self.data().len(),
            self.wf() ==> r.wf(),
    {
        self._right_broadcast(o, |x: &T, y: &T| -> T { el_mul(*x, *y) })
    }

    /// Element-wise division with right-hand broadcast.
    pub fn div(&self, o: &GenTensor<T>) -> (r: GenTensor<T>)
        requires
            self.broadcast_ok(o),
        ensures
            r.shape() == self.shape(),
            r.data().len() == self.data().len(),
            self.wf() ==> r.wf(),
    {
        self._right_broadcast(o, |x: &T, y: &T| -> T { el_div(*x, *y) })
    }

    /// Matrix multiplication of two matrices: `[n, k] x [k, m] -> [n, m]`.
    pub fn mm(&self, o: &GenTensor<T>) -> (r: GenTensor<T>)
        requires
            self.wf(),
            o.wf(),
            self.shape().len() == 2,
            o.shape().len() == 2,
            self.shape()[1] == o.shape()[0],
            self.shape()[0] * o.shape()[1] <= usize::MAX,
        ensures
            r.shape().len() == 2,
            r.shape()[0] == self.shape()[0],
            r.shape()[1] == o.shape()[1],
            r.data().len() == self.shape()[0] * o.shape()[1],
            r.wf(),
    {
        let ls = self.dim[0];
        let rs = o.dim[1];
        let inner = self.dim[1];
        proof {
            assert(prod_from(self.shape(), 2) == 1);
            assert(prod_from(self.shape(), 1) == inner * prod_from(self.shape(), 2));
            assert(prod_from(self.shape(), 0) == ls * prod_from(self.shape(), 1));
            assert(self.data().len() == ls * (inner as int)) by (nonlinear_arith)
                requires
                    self.data().len() == ls * (inner * 1int),
            ;
            assert(prod_from(o.shape(), 2) == 1);
            assert(prod_from(o.shape(), 1) == rs * prod_from(o.shape(), 2));
            assert(prod_from(o.shape(), 0) == inner * prod_from(o.shape(), 1));
            assert(o.data().len() == inner * (rs as int)) by (nonlinear_arith)
                requires
                    o.data().len() == inner * (rs * 1int),
            ;
        }
        let dl = self.d.len();
        let ol = o.d.len();
        let mut d: Vec<T> = Vec::new();
        let mut i: usize = 0;
        while i < ls
            invariant
                i <= ls,
                self.wf(),
                o.wf(),
                self.shape().len() == 2 && self.shape()[0] == ls && self.shape()[1] == inner,
                o.shape().len() == 2 && o.shape()[0] == inner && o.shape()[1] == rs,
                self.data().len() == ls * (inner as int),
                o.data().len() == inner * (rs as int),
                dl == self.data().len(),
                ol == o.data().len(),
                ls * rs <= usize::MAX,
                d@.len() == i * rs,
            decreases ls - i,
        {
            proof {
                assert(i * rs + rs <= ls * rs) by (nonlinear_arith)
                    requires
                        i < ls,
                        rs >= 0,
                ;
            }
            let mut j: usize = 0;
            while j < rs
                invariant
                    j <= rs,
                    i < ls,
                    self.wf(),
                    o.wf(),
                    self.shape().len() == 2 && self.shape()[0] == ls && self.shape()[1] == inner,
                    o.shape().len() == 2 && o.shape()[0] == inner && o.shape()[1] == rs,
                    self.data().len() == ls * (inner as int),
                    o.data().len() == inner * (rs as int),
                    dl == self.data().len(),
                    ol == o.data().len(),
                    ls * rs <= usize::MAX,
                    i * rs + rs <= ls * rs,
                    d@.len() == i * rs + j,
                decreases rs - j,
            {
                let mut t: T = el_zero();
                let mut k: usize = 0;
                while k < inner
                    invariant
                        k <= inner,
                        i < ls,
                        j < rs,
                        self.data().len() == ls * (inner as int),
                        o.data().len() == inner * (rs as int),
                        dl == self.data().len(),
                        ol == o.data().len(),
                    decreases inner - k,
                {
                    proof {
                        assert(i * inner + k < ls * inner) by (nonlinear_arith)
                            requires
                                i < ls,
                                k < inner,
                                inner >= 0,
                        ;
                        assert(k * rs + j < inner * rs) by (nonlinear_arith)
                            requires
                                k < inner,
                                j < rs,
                                rs >= 0,
                        ;
                        assert(ls * (inner as int) == (ls as int) * inner);
                        assert(inner * (rs as int) == (inner as int) * rs);
                        assert(i * inner >= 0 && i * inner <= i * inner + k) by (nonlinear_arith)
                            requires
                                i >= 0,
                                inner >= 0,
                                k >= 0,
                        ;
                        assert(k * rs >= 0 && k * rs <= k * rs + j) by (nonlinear_arith)
                            requires
                                k >= 0,
                                rs >= 0,
                                j >= 0,
                        ;
                    }
                    t = el_add(t, el_mul(self.d[i * inner + k], o.d[k * rs + j]));
                    k = k + 1;
                }
                d.push(t);
                j = j + 1;
            }
            i = i + 1;
            proof {
                assert(i * rs == (i - 1) * rs + rs) by (nonlinear_arith);
            }
        }
        let mut dim: Vec<usize> = Vec::new();
        dim.push(ls);
        dim.push(rs);
        let r = GenTensor { d, dim };
        proof {
            let sh = r.shape();
            assert(prod_from(sh, 2) == 1);
            assert(prod_from(sh, 1) == rs * prod_from(sh, 2));
            assert(prod_from(sh, 0) == ls * prod_from(sh, 1));
            assert(prod_from(sh, 0) == ls * (rs as int)) by (nonlinear_arith)
                requires
                    prod_from(sh, 0) == ls * (rs * 1int),
            ;
            assert forall|q: int| 0 <= q <= sh.len() implies prod_from(sh, q) <= usize::MAX by {
                if q == 1 && ls > 0 {
                    assert(rs * 1int <= ls * rs) by (nonlinear_arith)
                        requires
                            ls >= 1,
                            rs >= 0,
                    ;
                }
            }
        }
        r
    }

    /// Matrix multiplication; the operands are matrices whose inner
    /// dimensions agree.
    pub fn matmul(&self, o: &GenTensor<T>) -> (r: GenTensor<T>)
        requires
            self.wf(),
            o.wf(),
            self.shape().len() == 2,
            o.shape().len() == 2,
            self.shape()[1] == o.shape()[0],
            self.shape()[0] * o.shape()[1] <= usize::MAX,
        ensures
            r.shape().len() == 2,
            r.shape()[0] == self.shape()[0],
            r.shape()[1] == o.shape()[1],
            r.data().len() == self.shape()[0] * o.shape()[1],
            r.wf(),
    {
        self.mm(o)
    }

    /// Element-wise squared difference of two equally long tensors, in the
    /// shape of the first.
    pub fn squared_error(t1: &Self, t2: &Self) -> (r: GenTensor<T>)
        requires
            t1.data().len() == t2.data().len(),
        ensures
            r.shape() == t1.shape(),
            r.data().len() == t1.data().len(),
            t1.wf() ==> r.wf(),
    {
        let n = t1.d.len();
        let mut d: Vec<T> = Vec::new();
        let mut i: usize = 0;
        while i < n
            invariant
                i <= n,
                n == t1.data().len(),
                n == t2.data().len(),
                d@.len() == i,
            decreases n - i,
        {
            let df = el_sub(t1.d[i], t2.d[i]);
            d.push(el_mul(df, df));
            i = i + 1;
        }
        GenTensor { d, dim: t1.copy_shape() }
    }

    /// Element-wise approximate equality (within a square-root-of-epsilon
    /// tolerance): one where close, zero where not.
    pub fn eq_t(&self, o: &GenTensor<T>) -> (r: GenTensor<T>)
        requires
            self.shape() == o.shape(),
            self.data().len() == o.data().len(),
        ensures
            r.shape() == self.shape(),
            r.data().len() == self.data().len(),
            self.wf() ==> r.wf(),
    {
        let tol = el_sqrt(el_min_positive::<T>());
        let n = self.d.len();
        let mut d: Vec<T> = Vec::new();
        let mut i: usize = 0;
        while i < n
            invariant
                i <= n,
                n == self.data().len(),
                n == o.data().len(),
                d@.len() == i,
            decreases n - i,
        {
            let v: T = if el_lt(el_abs(el_sub(self.d[i], o.d[i])), tol) {
                el_one()
            } else {
                el_zero()
            };
            d.push(v);
            i = i + 1;
        }
        GenTensor { d, dim: self.copy_shape() }
    }

    /// Alias for [`GenTensor::eq_t`].
    pub fn all_close(&self, o: &GenTensor<T>) -> (r: GenTensor<T>)
        requires
            self.shape() == o.shape(),
            self.data().len() == o.data().len(),
        ensures
            r.shape() == self.shape(),
            r.data().len() == self.data().len(),
            self.wf() ==> r.wf(),
    {
        self.eq_t(o)
    }

    /// Whether the two tensors have the same shape and every pair of
    /// elements is within a square-root-of-epsilon tolerance.
    pub fn equal(&self, o: &GenTensor<T>) -> (r: bool)
        ensures
            self.shape() != o.shape() ==> r == false,
            self.data().len() != o.data().len() ==> r == false,
    {
        if self.dim.len() != o.dim.len() {
            return false;
        }
        let nd = self.dim.len();
        let mut k: usize = 0;
        while k < nd
            invariant
                k <= nd,
                nd == self.shape().len(),
                nd == o.shape().len(),
                forall|q: int| 0 <= q < k ==> self.shape()[q] == o.shape()[q],
            decreases nd - k,
        {
            if self.dim[k] != o.dim[k] {
                return false;
            }
            k = k + 1;
        }
        if self.d.len() != o.d.len() {
            return false;
        }
        proof {
            assert(self.shape() =~= o.shape());
        }
        let tol = el_sqrt(el_min_positive::<T>());
        let n = self.d.len();
        let mut i: usize = 0;
        let mut same = true;
        while i < n
            invariant
                i <= n,
                n == self.data().len(),
                n == o.data().len(),
            decreases n - i,
        {
            if el_gt(el_abs(el_sub(self.d[i], o.d[i])), tol) {
                same = false;
            }
            i = i + 1;
        }
        same
    }

    /// Element-wise greater-or-equal against `o`: one where it holds, zero where not.
    pub fn ge(&self, o: &GenTensor<T>) -> (r: GenTensor<T>)
        requires
            self.shape() == o.shape(),
            self.data().len() == o.data().len(),
        ensures
            r.shape() == self.shape(),
            r.data().len() == self.data().len(),
            self.wf() ==> r.wf(),
    {
        let n = self.d.len();
        let mut d: Vec<T> = Vec::new();
        let mut i: usize = 0;
        while i < n
            invariant
                i <= n,
                n == self.data().len(),
                n == o.data().len(),
                d@.len() == i,
            decreases n - i,
        {
            let v: T = if el_ge(self.d[i], o.d[i]) {
                el_one()
            } else {
                el_zero()
            };
            d.push(v);
            i = i + 1;
        }
        GenTensor { d, dim: self.copy_shape() }
    }

    /// Element-wise strictly-greater against `o`: one where it holds, zero where not.
    pub fn gt(&self, o: &GenTensor<T>) -> (r: GenTensor<T>)
        requires
            self.shape() == o.shape(),
            self.data().len() == o.data().len(),
        ensures
            r.shape() == self.shape(),
            r.data().len() == self.data().len(),
            self.wf() ==> r.wf(),
    {
        let n = self.d.len();
        let mut d: Vec<T> = Vec::new();
        let mut i: usize = 0;
        while i < n
            invariant
                i <= n,
                n == self.data().len(),
                n == o.data().len(),
                d@.len() == i,
            decreases n - i,
        {
            let v: T = if el_gt(self.d[i], o.d[i]) {
                el_one()
            } else {
                el_zero()
            };
            d.push(v);
            i = i + 1;
        }
        GenTensor { d, dim: self.copy_shape() }
    }

    /// Element-wise less-or-equal against `o`: one where it holds, zero where not.
    pub fn le(&self, o: &GenTensor<T>) -> (r: GenTensor<T>)
        requires
            self.shape() == o.shape(),
            self.data().len() == o.data().len(),
        ensures
            r.shape() == self.shape(),
            r.data().len() == self.data().len(),
            self.wf() ==> r.wf(),
    {
        let n = self.d.len();
        let mut d: Vec<T> = Vec::new();
        let mut i: usize = 0;
        while i < n
            invariant
                i <= n,
                n == self.data().len(),
                n == o.data().len(),
                d@.len() == i,
            decreases n - i,
        {
            let v: T = if el_le(self.d[i], o.d[i]) {
                el_one()
            } else {
                el_zero()
            };
            d.push(v);
            i = i + 1;
        }
        GenTensor { d, dim: self.copy_shape() }
    }

    /// Element-wise strictly-less against `o`: one where it holds, zero where not.
    pub fn lt(&self, o: &GenTensor<T>) -> (r: GenTensor<T>)
        requires
            self.shape() == o.shape(),
            self.data().len() == o.data().len(),
        ensures
            r.shape() == self.shape(),
            r.data().len() == self.data().len(),
            self.wf() ==> r.wf(),
    {
        let n = self.d.len();
        let mut d: Vec<T> = Vec::new();
        let mut i: usize = 0;
        while i < n
            invariant
                i <= n,
                n == self.data().len(),
                n == o.data().len(),
                d@.len() == i,
            decreases n - i,
        {
            let v: T = if el_lt(self.d[i], o.d[i]) {
                el_one()
            } else {
                el_zero()
            };
            d.push(v);
            i = i + 1;
        }
        GenTensor { d, dim: self.copy_shape() }
    }

    /// Element-wise inequality against `o`: one where it holds, zero where not.
    pub fn ne(&self, o: &GenTensor<T>) -> (r: GenTensor<T>)
        requires
            self.shape() == o.shape(),
            self.data().len() == o.data().len(),
        ensures
            r.shape() == self.shape(),
            r.data().len() == self.data().len(),
            self.wf() ==> r.wf(),
    {
        let n = self.d.len();
        let mut d: Vec<T> = Vec::new();
        let mut i: usize = 0;
        while i < n
            invariant
                i <= n,
                n == self.data().len(),
                n == o.data().len(),
                d@.len() == i,
            decreases n - i,
        {
            let v: T = if el_ne(self.d[i], o.d[i]) {
                el_one()
            } else {
                el_zero()
            };
            d.push(v);
            i = i + 1;
        }
        GenTensor { d, dim: self.copy_shape() }
    }

    /// Sort one axis and return, in each element's place, the rank of the
    /// element along that axis: with `descending` the values are ranked
    /// ascending, otherwise descending.
    pub fn arg_sort(&self, dim: usize, descending: bool) -> (r: GenTensor<T>)
        requires
            self.wf(),
            dim < self.shape().len(),
        ensures
            r.shape() == self.shape(),
            r.data().len() == self.data().len(),
            r.wf(),
    {
        let n = self.d.len();
        let mut d = self.copy_data();
        if n == 0 {
            return GenTensor { d, dim: self.copy_shape() };
        }
        proof {
            lemma_prod_from_pos(self.shape(), dim + 1 as int);
        }
        let nd = self.dim.len();
        let size = self.dim[dim];
        let inner = Self::suffix_count(&self.dim, dim + 1);
        let outer = (n / inner) / size;
        proof {
            lemma_prod_split(self.shape(), dim as int);
            lemma_prod_prefix_nonneg(self.shape(), dim as int);
            assert(self.data().len() == prod_prefix(self.shape(), dim as int) * ((size as int) * (
            inner as int))) by (nonlinear_arith)
                requires
                    self.data().len() == prod_prefix(self.shape(), dim as int) * prod_from(
                        self.shape(),
                        dim as int,
                    ),
                    prod_from(self.shape(), dim as int) == size * prod_from(
                        self.shape(),
                        dim + 1 as int,
                    ),
                    inner == prod_from(self.shape(), dim + 1 as int),
            ;
            assert(outer as int == prod_prefix(self.shape(), dim as int) && outer * (size as int)
                * (inner as int) == n) by (nonlinear_arith)
                requires
                    n == prod_prefix(self.shape(), dim as int) * ((size as int) * (inner as int)),
                    outer as int == ((n as int) / (inner as int)) / (size as int),
                    size > 0,
                    inner > 0,
                    prod_prefix(self.shape(), dim as int) >= 0,
            ;
        }
        let mut i: usize = 0;
        while i < outer
            invariant
                i <= outer,
                size > 0 && inner > 0,
                n == self.data().len(),
                n <= usize::MAX,
                outer * (size as int) * (inner as int) == n,
                d@.len() == n,
            decreases outer - i,
        {
            let mut j: usize = 0;
            while j < inner
                invariant
                    j <= inner,
                    i < outer,
                    size > 0 && inner > 0,
                    n == self.data().len(),
                    n <= usize::MAX,
                    outer * (size as int) * (inner as int) == n,
                    d@.len() == n,
                decreases inner - j,
            {
                proof {
                    lemma_lane_bound(outer as int, size as int, inner as int, i as int, j as int);
                    assert(i * inner >= 0 && i * inner <= i * inner * size) by (nonlinear_arith)
                        requires
                            i >= 0,
                            inner >= 0,
                            size >= 1,
                    ;
                    assert((0 as int) * inner + j + i * inner * size < n);
                }
                let mut collected: Vec<(T, usize)> = Vec::new();
                let mut k: usize = 0;
                while k < size
                    invariant
                        k <= size,
                        i < outer,
                        j < inner,
                        size > 0 && inner > 0,
                        n == self.data().len(),
                        n <= usize::MAX,
                        i * inner <= i * inner * size < n,
                        d@.len() == n,
                        collected@.len() == k,
                        forall|q: int|
                            0 <= q < size ==> (#[trigger] (q * inner) + j + i * inner * size < n),
                    decreases size - k,
                {
                    proof {
                        assert(k * inner >= 0) by (nonlinear_arith)
                            requires
                                k >= 0,
                                inner >= 0,
                        ;
                        assert((k as int) * inner + j + i * inner * size < n);
                    }
                    collected.push((d[k * inner + j + i * inner * size], k));
                    k = k + 1;
                }
                Self::sort_pairs(&mut collected, descending);
                let mut k2: usize = 0;
                while k2 < size
                    invariant
                        k2 <= size,
                        i < outer,
                        j < inner,
                        size > 0 && inner > 0,
                        n == self.data().len(),
                        n <= usize::MAX,
                        i * inner <= i * inner * size < n,
                        d@.len() == n,
                        collected@.len() == size,
                        forall|q: int|
                            0 <= q < size ==> (#[trigger] (q * inner) + j + i * inner * size < n),
                    decreases size - k2,
                {
                    proof {
                        assert(k2 * inner >= 0) by (nonlinear_arith)
                            requires
                                k2 >= 0,
                                inner >= 0,
                        ;
                        assert((k2 as int) * inner + j + i * inner * size < n);
                    }
                    let idx: T = match el_from_usize(collected[k2].1) {
                        Some(v) => v,
                        None => el_zero(),
                    };
                    d[k2 * inner + j + i * inner * size] = idx;
                    k2 = k2 + 1;
                }
                j = j + 1;
            }
            i = i + 1;
        }
        GenTensor { d, dim: self.copy_shape() }
    }

    /// Stable insertion sort of value-index pairs: with `descending` the
    /// values end up ascending, otherwise descending.
    fn sort_pairs(v: &mut Vec<(T, usize)>, descending: bool)
        ensures
            final(v)@.len() == old(v)@.len(),
    {
        let n = v.len();
        let mut i: usize = 1;
        while i < n
            invariant
                n == v@.len(),
            decreases n - i,
        {
            let mut j: usize = i;
            while j > 0
                invariant
                    j <= i < n,
                    n == v@.len(),
                decreases j,
            {
                let before = if descending {
                    el_lt(v[j].0, v[j - 1].0)
                } else {
                    el_gt(v[j].0, v[j - 1].0)
                };
                if before {
                    let a = v[j];
                    let b = v[j - 1];
                    v[j] = b;
                    v[j - 1] = a;
                    j = j - 1;
                } else {
                    j = 0;
                }
            }
            i = i + 1;
        }
    }
}

/// The product of the leading dimensions `0..i`.
pub open spec fn prod_prefix(dims: Seq<usize>, i: int) -> int
    decreases i,
{
    if i <= 0 || i > dims.len() {
        1
    } else {
        prod_prefix(dims, i - 1) * dims[i - 1]
    }
}

proof fn lemma_prod_prefix_nonneg(dims: Seq<usize>, i: int)
    ensures
        prod_prefix(dims, i) >= 0,
    decreases i,
{
    if 0 < i <= dims.len() {
        lemma_prod_prefix_nonneg(dims, i - 1);
        assert(prod_prefix(dims, i - 1) * dims[i - 1] >= 0) by (nonlinear_arith)
            requires
                prod_prefix(dims, i - 1) >= 0,
                dims[i - 1] >= 0,
        ;
    }
}

/// The total element count splits into the leading product times the
/// trailing product at any axis.
pub proof fn lemma_prod_split(dims: Seq<usize>, i: int)
    requires
        0 <= i <= dims.len(),
    ensures
        prod_from(dims, 0) == prod_prefix(dims, i) * prod_from(dims, i),
    decreases i,
{
    if i == 0 {
    } else {
        lemma_prod_split(dims, i - 1);
        assert(prod_from(dims, i - 1) == dims[i - 1] * prod_from(dims, i));
        assert(prod_prefix(dims, i - 1) * (dims[i - 1] * prod_from(dims, i)) == (prod_prefix(
            dims,
            i - 1,
        ) * dims[i - 1]) * prod_from(dims, i)) by (nonlinear_arith);
    }
}

/// Lanes of a `[outer, size, inner]` decomposition stay within the buffer.
proof fn lemma_lane_bound(outer: int, size: int, inner: int, i: int, j: int)
    requires
        0 <= i < outer,
        0 <= j < inner,
        size > 0,
    ensures
        forall|q: int| 0 <= q < size ==> #[trigger] (q * inner) + j + i * inner * size < outer * size * inner,
{
    assert forall|q: int| 0 <= q < size implies #[trigger] (q * inner) + j + i * inner * size < outer * size
        * inner by {
        assert(q * inner + j + i * inner * size < outer * size * inner) by (nonlinear_arith)
            requires
                0 <= i < outer,
                0 <= j < inner,
                0 <= q < size,
        ;
    }
}


/// The digits of `index` in the mixed-radix system of `dims`: the unique
/// in-range multi-index whose row-major linear index is `index`.
fn digits_of(dims: &Vec<usize>, index: usize) -> (r: Vec<usize>)
    requires
        forall|i: int| 0 <= i <= dims@.len() ==> prod_from(dims@, i) <= usize::MAX,
        index < prod_from(dims@, 0),
    ensures
        r@.len() == dims@.len(),
        forall|i: int| 0 <= i < r@.len() ==> r@[i] < dims@[i],
        lin_index(dims@, r@) == index,
{
    proof {
        lemma_prod_from_nonneg(dims@, 0);
        lemma_prod_from_pos(dims@, 0);
    }
    let n = dims.len();
    let mut r: Vec<usize> = Vec::new();
    let mut rem: usize = index;
    let mut i: usize = 0;
    while i < n
        invariant
            i <= n,
            n == dims@.len(),
            forall|q: int| 0 <= q <= dims@.len() ==> prod_from(dims@, q) <= usize::MAX,
            prod_from(dims@, 0) > 0,
            forall|k: int| 0 <= k < n ==> dims@[k] > 0,
            r@.len() == i,
            forall|k: int| 0 <= k < i ==> r@[k] < dims@[k],
            rem < prod_from(dims@, i as int),
            lin_from(dims@, r@, 0) + rem == index,
        decreases n - i,
    {
        let s = suffix_count_of(dims, i + 1);
        proof {
            lemma_prod_from_pos(dims@, i + 1 as int);
        }
        let q = rem / s;
        let rem2 = rem % s;
        proof {
            let si = prod_from(dims@, i + 1 as int);
            assert(si == s as int);
            assert(q as int == rem as int / si && rem2 as int == rem as int % si);
            assert(rem == q * si + rem2 && 0 <= rem2 < si && q >= 0) by (nonlinear_arith)
                requires
                    si > 0,
                    rem >= 0,
                    q as int == rem as int / si,
                    rem2 as int == rem as int % si,
            ;
            assert(q < dims@[i as int]) by (nonlinear_arith)
                requires
                    rem < dims@[i as int] * si,
                    rem == q * si + rem2,
                    0 <= rem2 < si,
                    si > 0,
                    q >= 0,
            ;
        }
        let ghost rold = r@;
        r.push(q);
        rem = rem2;
        proof {
            lemma_lin_push(dims@, rold, r@, 0, i as int, q);
        }
        i = i + 1;
    }
    proof {
        if n > 0 {
            assert(prod_from(dims@, n as int) == 1);
        } else {
            assert(prod_from(dims@, 0) == 1);
        }
    }
    r
}

/// The trailing element count `prod_from(dims, i)` of a shape vector.
fn suffix_count_of(dims: &Vec<usize>, i: usize) -> (r: usize)
    requires
        i <= dims@.len(),
        forall|k: int| 0 <= k <= dims@.len() ==> prod_from(dims@, k) <= usize::MAX,
    ensures
        r == prod_from(dims@, i as int),
{
    let n = dims.len();
    let mut acc: usize = 1;
    let mut k: usize = n;
    while k > i
        invariant
            i <= k <= n,
            n == dims@.len(),
            forall|q: int| 0 <= q <= dims@.len() ==> prod_from(dims@, q) <= usize::MAX,
            acc == prod_from(dims@, k as int),
        decreases k,
    {
        proof {
            lemma_prod_from_nonneg(dims@, k as int);
            assert(prod_from(dims@, (k - 1) as int) == dims@[(k - 1) as int] * prod_from(
                dims@,
                k as int,
            ));
        }
        acc = dims[k - 1] * acc;
        k = k - 1;
    }
    acc
}

/// Pushing one more trailing dimension multiplies every trailing product.
proof fn lemma_prod_push(dims: Seq<usize>, x: usize, i: int)
    requires
        0 <= i <= dims.len() + 1,
    ensures
        prod_from(dims.push(x), i) == if i <= dims.len() {
            prod_from(dims, i) * x
        } else {
            1int
        },
    decreases dims.len() + 1 - i,
{
    let dn = dims.push(x);
    if i == dims.len() + 1 {
    } else if i == dims.len() {
        assert(prod_from(dn, i) == dn[i] * prod_from(dn, i + 1));
        assert(prod_from(dims, i) == 1);
    } else {
        lemma_prod_push(dims, x, i + 1);
        assert(prod_from(dn, i) == dn[i] * prod_from(dn, i + 1));
        assert(prod_from(dims, i) == dims[i] * prod_from(dims, i + 1));
        assert(dn[i] == dims[i]);
        assert(dims[i] * (prod_from(dims, i + 1) * x) == (dims[i] * prod_from(dims, i + 1))
            * x) by (nonlinear_arith);
    }
}

impl<T: num_traits::Float> GenTensor<T> {
    /// The number of elements spanned by the leading dimensions `0..upto`.
    fn prefix_count(dims: &Vec<usize>, upto: usize) -> (r: usize)
        requires
            upto <= dims@.len(),
            forall|i: int| 0 <= i <= dims@.len() ==> prod_prefix(dims@, i) <= usize::MAX,
        ensures
            r == prod_prefix(dims@, upto as int),
    {
        let mut acc: usize = 1;
        let mut i: usize = 0;
        while i < upto
            invariant
                i <= upto,
                upto <= dims@.len(),
                forall|k: int| 0 <= k <= dims@.len() ==> prod_prefix(dims@, k) <= usize::MAX,
                acc == prod_prefix(dims@, i as int),
            decreases upto - i,
        {
            proof {
                lemma_prod_prefix_nonneg(dims@, i as int);
                assert(prod_prefix(dims@, i + 1 as int) == prod_prefix(dims@, i as int) * dims@[
                    i as int]);
            }
            acc = acc * dims[i];
            i = i + 1;
        }
        acc
    }

    /// Outer product over the rightmost dimensions: both operands share their
    /// leading dimensions, and for every leading position the result pairs
    /// each left element with each right element. With `avg` the pairwise
    /// products are averaged over the leading positions instead, leaving only
    /// the two rightmost dimensions.
    pub fn outer(&self, o: &GenTensor<T>, avg: Option<bool>) -> (r: GenTensor<T>)
        requires
            self.wf(),
            o.wf(),
            self.shape().len() == o.shape().len(),
            self.shape().len() >= 1,
            forall|i: int|
                0 <= i < self.shape().len() - 1 ==> #[trigger] self.shape()[i] == o.shape()[i],
            forall|i: int|
                0 <= i <= self.shape().len() ==> prod_from(self.shape(), i) * o.shape()[
                    o.shape().len() - 1] <= usize::MAX,
            forall|i: int|
                0 <= i <= self.shape().len() ==> prod_prefix(self.shape(), i) <= usize::MAX,
        ensures
            !(avg is Some && avg->Some_0) ==> {
                &&& r.shape() == self.shape().push(o.shape()[o.shape().len() - 1])
                &&& r.data().len() == self.data().len() * o.shape()[o.shape().len() - 1]
                &&& r.wf()
            },
            (avg is Some && avg->Some_0) ==> {
                &&& r.shape().len() == 2
                &&& r.shape()[0] == self.shape()[self.shape().len() - 1]
                &&& r.shape()[1] == o.shape()[o.shape().len() - 1]
            },
    {
        let nd = self.dim.len();
        let left_dim = self.dim[nd - 1];
        let right_dim = o.dim[nd - 1];
        let dl = self.d.len();
        let ol = o.d.len();
        // the shared leading block count
        let outer_size = Self::prefix_count(&self.dim, nd - 1);
        proof {
            lemma_prod_split(self.shape(), nd - 1 as int);
            lemma_prod_split(o.shape(), nd - 1 as int);
            lemma_prod_prefix_equal(self.shape(), o.shape(), nd - 1 as int);
            lemma_prod_prefix_nonneg(self.shape(), nd - 1 as int);
            assert(prod_from(self.shape(), nd - 1 as int) == left_dim * prod_from(
                self.shape(),
                nd as int,
            ));
            assert(prod_from(o.shape(), nd - 1 as int) == right_dim * prod_from(
                o.shape(),
                nd as int,
            ));
            assert(dl == outer_size * ((left_dim as int) * 1)) by (nonlinear_arith)
                requires
                    dl == prod_prefix(self.shape(), nd - 1 as int) * prod_from(
                        self.shape(),
                        nd - 1 as int,
                    ),
                    prod_from(self.shape(), nd - 1 as int) == left_dim * 1,
                    outer_size as int == prod_prefix(self.shape(), nd - 1 as int),
            ;
            assert(ol == outer_size * ((right_dim as int) * 1)) by (nonlinear_arith)
                requires
                    ol == prod_prefix(o.shape(), nd - 1 as int) * prod_from(
                        o.shape(),
                        nd - 1 as int,
                    ),
                    prod_from(o.shape(), nd - 1 as int) == right_dim * 1,
                    prod_prefix(o.shape(), nd - 1 as int) == prod_prefix(
                        self.shape(),
                        nd - 1 as int,
                    ),
                    outer_size as int == prod_prefix(self.shape(), nd - 1 as int),
            ;
            assert(outer_size * (left_dim as int) == dl && outer_size * (right_dim as int)
                == ol) by (nonlinear_arith)
                requires
                    dl == outer_size * ((left_dim as int) * 1),
                    ol == outer_size * ((right_dim as int) * 1),
            ;
        }
        let averaged = match avg {
            Some(b) => b,
            None => false,
        };
        if averaged {
            proof {
                assert(left_dim * right_dim <= usize::MAX) by (nonlinear_arith)
                    requires
                        prod_from(self.shape(), (nd - 1) as int) * (right_dim as int)
                            <= usize::MAX,
                        prod_from(self.shape(), (nd - 1) as int) == left_dim * 1,
                        right_dim >= 0,
                ;
            }
            let cap = left_dim * right_dim;
            let mut data: Vec<T> = Vec::new();
            let mut z: usize = 0;
            while z < cap
                invariant
                    z <= cap,
                    data@.len() == z,
                decreases cap - z,
            {
                data.push(el_zero());
                z = z + 1;
            }
            let mut k: usize = 0;
            while k < outer_size
                invariant
                    k <= outer_size,
                    cap == left_dim * right_dim,
                    data@.len() == cap,
                    dl == self.data().len(),
                    ol == o.data().len(),
                    outer_size * (left_dim as int) == dl,
                    outer_size * (right_dim as int) == ol,
                decreases outer_size - k,
            {
                let mut i: usize = 0;
                while i < left_dim
                    invariant
                        i <= left_dim,
                        k < outer_size,
                        cap == left_dim * right_dim,
                        data@.len() == cap,
                        dl == self.data().len(),
                        ol == o.data().len(),
                        outer_size * (left_dim as int) == dl,
                        outer_size * (right_dim as int) == ol,
                    decreases left_dim - i,
                {
                    let mut j: usize = 0;
                    while j < right_dim
                        invariant
                            j <= right_dim,
                            i < left_dim,
                            k < outer_size,
                            cap == left_dim * right_dim,
                            data@.len() == cap,
                            dl == self.data().len(),
                            ol == o.data().len(),
                            outer_size * (left_dim as int) == dl,
                            outer_size * (right_dim as int) == ol,
                        decreases right_dim - j,
                    {
                        proof {
                            assert(i + k * left_dim < dl && k * left_dim >= 0) by (nonlinear_arith)
                                requires
                                    i < left_dim,
                                    k < outer_size,
                                    outer_size * (left_dim as int) == dl,
                                    left_dim >= 0,
                                    k >= 0,
                            ;
                            assert(j + k * right_dim < ol && k * right_dim >= 0)
                                by (nonlinear_arith)
                                requires
                                    j < right_dim,
                                    k < outer_size,
                                    outer_size * (right_dim as int) == ol,
                                    right_dim >= 0,
                                    k >= 0,
                            ;
                            assert(i * right_dim + j < cap && i * right_dim >= 0)
                                by (nonlinear_arith)
                                requires
                                    i < left_dim,
                                    j < right_dim,
                                    cap == left_dim * right_dim,
                                    right_dim >= 0,
                                    i >= 0,
                            ;
                        }
                        let pv = el_mul(self.d[i + k * left_dim], o.d[j + k * right_dim]);
                        let cur = data[i * right_dim + j];
                        data[i * right_dim + j] = el_add(cur, pv);
                        j = j + 1;
                    }
                    i = i + 1;
                }
                k = k + 1;
            }
            let div: T = match el_from_usize(outer_size) {
                Some(v) => v,
                None => el_one(),
            };
            let mut z2: usize = 0;
            while z2 < cap
                invariant
                    z2 <= cap,
                    data@.len() == cap,
                decreases cap - z2,
            {
                let cur = data[z2];
                data[z2] = el_div(cur, div);
                z2 = z2 + 1;
            }
            let mut dim: Vec<usize> = Vec::new();
            dim.push(left_dim);
            dim.push(right_dim);
            GenTensor { d: data, dim }
        } else {
            let mut data: Vec<T> = Vec::new();
            let mut k: usize = 0;
            proof {
                assert(dl * (right_dim as int) <= usize::MAX) by (nonlinear_arith)
                    requires
                        prod_from(self.shape(), 0) * (right_dim as int) <= usize::MAX,
                        dl == prod_from(self.shape(), 0),
                ;
                assert(outer_size * (left_dim as int) * (right_dim as int) == dl * (
                right_dim as int)) by (nonlinear_arith)
                    requires
                        outer_size * (left_dim as int) == dl,
                ;
                assert(0int * (left_dim as int) * (right_dim as int) == 0) by (nonlinear_arith);
            }
            while k < outer_size
                invariant
                    k <= outer_size,
                    dl == self.data().len(),
                    ol == o.data().len(),
                    outer_size * (left_dim as int) == dl,
                    outer_size * (right_dim as int) == ol,
                    dl * (right_dim as int) <= usize::MAX,
                    data@.len() == k * (left_dim as int) * (right_dim as int),
                decreases outer_size - k,
            {
                let mut i: usize = 0;
                while i < left_dim
                    invariant
                        i <= left_dim,
                        k < outer_size,
                        dl == self.data().len(),
                        ol == o.data().len(),
                        outer_size * (left_dim as int) == dl,
                        outer_size * (right_dim as int) == ol,
                        dl * (right_dim as int) <= usize::MAX,
                        data@.len() == k * (left_dim as int) * (right_dim as int) + i * (
                        right_dim as int),
                    decreases left_dim - i,
                {
                    let mut j: usize = 0;
                    while j < right_dim
                        invariant
                            j <= right_dim,
                            i < left_dim,
                            k < outer_size,
                            dl == self.data().len(),
                            ol == o.data().len(),
                            outer_size * (left_dim as int) == dl,
                            outer_size * (right_dim as int) == ol,
                            dl * (right_dim as int) <= usize::MAX,
                            data@.len() == k * (left_dim as int) * (right_dim as int) + i * (
                            right_dim as int) + j,
                        decreases right_dim - j,
                    {
                        proof {
                            assert(i + k * left_dim < dl && k * left_dim >= 0) by (nonlinear_arith)
                                requires
                                    i < left_dim,
                                    k < outer_size,
                                    outer_size * (left_dim as int) == dl,
                                    left_dim >= 0,
                                    k >= 0,
                            ;
                            assert(j + k * right_dim < ol && k * right_dim >= 0)
                                by (nonlinear_arith)
                                requires
                                    j < right_dim,
                                    k < outer_size,
                                    outer_size * (right_dim as int) == ol,
                                    right_dim >= 0,
                                    k >= 0,
                            ;
                            assert(k * (left_dim as int) * (right_dim as int) + i * (
                            right_dim as int) + j < dl * (right_dim as int)) by (nonlinear_arith)
                                requires
                                    i < left_dim,
                                    j < right_dim,
                                    k < outer_size,
                                    outer_size * (left_dim as int) == dl,
                                    left_dim >= 0,
                                    right_dim >= 0,
                                    k >= 0,
                                    i >= 0,
                                    j >= 0,
                            ;
                        }
                        data.push(el_mul(self.d[i + k * left_dim], o.d[j + k * right_dim]));
                        j = j + 1;
                    }
                    proof {
                        assert(k * (left_dim as int) * (right_dim as int) + (i + 1) * (
                        right_dim as int) == k * (left_dim as int) * (right_dim as int) + i * (
                        right_dim as int) + right_dim) by (nonlinear_arith);
                    }
                    i = i + 1;
                }
                proof {
                    assert((k + 1) * (left_dim as int) * (right_dim as int) == k * (
                    left_dim as int) * (right_dim as int) + left_dim * (right_dim as int))
                        by (nonlinear_arith);
                }
                k = k + 1;
            }
            let dim = self.copy_shape_with(right_dim);
            let r = GenTensor { d: data, dim };
            proof {
                let sh = r.shape();
                assert(sh =~= self.shape().push(right_dim));
                assert forall|q: int| 0 <= q <= sh.len() implies prod_from(sh, q)
                    <= usize::MAX by {
                    lemma_prod_push(self.shape(), right_dim, q);
                }
                lemma_prod_push(self.shape(), right_dim, 0);
                assert(r.data().len() == outer_size * (left_dim as int) * (right_dim as int));
                assert(outer_size * (left_dim as int) * (right_dim as int) == dl * (
                right_dim as int)) by (nonlinear_arith)
                    requires
                        outer_size * (left_dim as int) == dl,
                ;
            }
            r
        }
    }

    /// The shape extended by one trailing dimension.
    fn copy_shape_with(&self, extra: usize) -> (r: Vec<usize>)
        ensures
            r@ == self.shape().push(extra),
    {
        let mut dim = self.copy_shape();
        dim.push(extra);
        dim
    }
}

/// Two shapes equal on a leading prefix have the same leading product.
proof fn lemma_prod_prefix_equal(a: Seq<usize>, b: Seq<usize>, i: int)
    requires
        0 <= i <= a.len(),
        i <= b.len(),
        forall|k: int| 0 <= k < i ==> #[trigger] a[k] == b[k],
    ensures
        prod_prefix(a, i) == prod_prefix(b, i),
    decreases i,
{
    if i > 0 {
        lemma_prod_prefix_equal(a, b, i - 1);
    }
}


impl<T: num_traits::Float> GenTensor<T> {
    /// The number of positions a patch covers along one axis: from `lo`
    /// (inclusive) to `hi` (exclusive) in steps of `st`.
    pub open spec fn patch_count(lo: usize, hi: usize, st: usize) -> int {
        1 + (hi - lo - 1) / (st as int)
    }

    /// Extract the sub-tensor covering `range` (per-axis inclusive start and
    /// exclusive end), sampled with the per-axis `step` (1 everywhere when
    /// absent).
    pub fn get_patch(&self, range: &[(usize, usize)], step: Option<&[usize]>) -> (r: GenTensor<T>)
        requires
            self.wf(),
            range@.len() == self.shape().len(),
            forall|i: int|
                0 <= i < range@.len() ==> (#[trigger] range@[i]).0 < range@[i].1 && range@[i].1
                    <= self.shape()[i],
            step is Some ==> step->Some_0@.len() == self.shape().len() && (forall|i: int|
                0 <= i < step->Some_0@.len() ==> #[trigger] step->Some_0@[i] >= 1),
        ensures
            r.shape().len() == self.shape().len(),
            forall|i: int|
                0 <= i < r.shape().len() ==> #[trigger] r.shape()[i] == Self::patch_count(
                    range@[i].0,
                    range@[i].1,
                    if step is Some {
                        step->Some_0@[i]
                    } else {
                        1
                    },
                ),
            r.wf(),
    {
        let n = self.dim.len();
        // the per-axis position counts
        let mut out_dim: Vec<usize> = Vec::new();
        let mut i: usize = 0;
        while i < n
            invariant
                i <= n,
                n == self.shape().len(),
                self.wf(),
                range@.len() == n,
                forall|q: int|
                    0 <= q < range@.len() ==> (#[trigger] range@[q]).0 < range@[q].1 && range@[q].1
                        <= self.shape()[q],
                step is Some ==> step->Some_0@.len() == n && (forall|q: int|
                    0 <= q < step->Some_0@.len() ==> #[trigger] step->Some_0@[q] >= 1),
                out_dim@.len() == i,
                forall|q: int|
                    0 <= q < i ==> #[trigger] out_dim@[q] == Self::patch_count(
                        range@[q].0,
                        range@[q].1,
                        if step is Some {
                            step->Some_0@[q]
                        } else {
                            1
                        },
                    ),
                forall|q: int| 0 <= q < i ==> 1 <= #[trigger] out_dim@[q] <= self.shape()[q],
            decreases n - i,
        {
            let st: usize = match step {
                Some(sv) => sv[i],
                None => 1,
            };
            let lo = range[i].0;
            let hi = range[i].1;
            let cnt = 1 + (hi - lo - 1) / st;
            proof {
                let span = hi - lo;
                assert(1 <= cnt as int && cnt as int <= span) by (nonlinear_arith)
                    requires
                        cnt as int == 1 + (span - 1) / (st as int),
                        st >= 1,
                        span >= 1,
                ;
                assert(span <= self.shape()[i as int]);
            }
            out_dim.push(cnt);
            i = i + 1;
        }
        proof {
            lemma_prod_pointwise_le(out_dim@, self.shape(), 0);
        }
        let total = Self::count_elems(out_dim.as_slice());
        let mut data: Vec<T> = Vec::new();
        let mut li: usize = 0;
        while li < total
            invariant
                li <= total,
                n == self.shape().len(),
                self.wf(),
                range@.len() == n,
                forall|q: int|
                    0 <= q < range@.len() ==> (#[trigger] range@[q]).0 < range@[q].1 && range@[q].1
                        <= self.shape()[q],
                step is Some ==> step->Some_0@.len() == n && (forall|q: int|
                    0 <= q < step->Some_0@.len() ==> #[trigger] step->Some_0@[q] >= 1),
                out_dim@.len() == n,
                forall|q: int| 0 <= q < n ==> 1 <= #[trigger] out_dim@[q] <= self.shape()[q],
                forall|q: int|
                    0 <= q < n ==> #[trigger] out_dim@[q] == Self::patch_count(
                        range@[q].0,
                        range@[q].1,
                        if step is Some {
                            step->Some_0@[q]
                        } else {
                            1
                        },
                    ),
                forall|q: int| 0 <= q <= n ==> prod_from(out_dim@, q) <= usize::MAX,
                total == prod_from(out_dim@, 0),
                data@.len() == li,
            decreases total - li,
        {
            let pos = digits_of(&out_dim, li);
            let mut sidx: Vec<usize> = Vec::new();
            let mut q: usize = 0;
            while q < n
                invariant
                    q <= n,
                    n == self.shape().len(),
                    range@.len() == n,
                    forall|w: int|
                        0 <= w < range@.len() ==> (#[trigger] range@[w]).0 < range@[w].1
                            && range@[w].1 <= self.shape()[w],
                    step is Some ==> step->Some_0@.len() == n && (forall|w: int|
                        0 <= w < step->Some_0@.len() ==> #[trigger] step->Some_0@[w] >= 1),
                    out_dim@.len() == n,
                    pos@.len() == n,
                    forall|w: int| 0 <= w < n ==> #[trigger] pos@[w] < out_dim@[w],
                    forall|w: int| 0 <= w < n ==> 1 <= #[trigger] out_dim@[w] <= self.shape()[w],
                    forall|w: int|
                        0 <= w < n ==> #[trigger] out_dim@[w] == Self::patch_count(
                            range@[w].0,
                            range@[w].1,
                            if step is Some {
                                step->Some_0@[w]
                            } else {
                                1
                            },
                        ),
                    sidx@.len() == q,
                    forall|w: int| 0 <= w < q ==> #[trigger] sidx@[w] < self.shape()[w],
                decreases n - q,
            {
                let st: usize = match step {
                    Some(sv) => sv[q],
                    None => 1,
                };
                let lo = range[q].0;
                let hi = range[q].1;
                proof {
                    let span = hi - lo;
                    let cnt = out_dim@[q as int] as int;
                    assert((cnt - 1) * st <= span - 1) by (nonlinear_arith)
                        requires
                            cnt == 1 + (span - 1) / (st as int),
                            st >= 1,
                            span >= 1,
                    ;
                    assert(pos@[q as int] * st <= (cnt - 1) * st) by (nonlinear_arith)
                        requires
                            pos@[q as int] <= cnt - 1,
                            st >= 0,
                    ;
                }
                sidx.push(lo + pos[q] * st);
                q = q + 1;
            }
            let v = self.get(sidx.as_slice());
            data.push(v);
            li = li + 1;
        }
        let r = GenTensor { d: data, dim: out_dim };
        r
    }

    /// Overwrite the sub-tensor covering `range` (per-axis inclusive start
    /// and exclusive end, sampled with the per-axis `step`, 1 everywhere when
    /// absent) with the values of `val`, position by position.
    pub fn set_patch(&mut self, val: &GenTensor<T>, range: &[(usize, usize)], step: Option<
        &[usize],
    >)
        requires
            old(self).wf(),
            val.wf(),
            range@.len() == old(self).shape().len(),
            val.shape().len() == old(self).shape().len(),
            forall|i: int|
                0 <= i < range@.len() ==> (#[trigger] range@[i]).0 < range@[i].1 && range@[i].1
                    <= old(self).shape()[i],
            step is Some ==> step->Some_0@.len() == old(self).shape().len() && (forall|i: int|
                0 <= i < step->Some_0@.len() ==> #[trigger] step->Some_0@[i] >= 1),
            forall|i: int|
                0 <= i < val.shape().len() ==> 1 <= #[trigger] val.shape()[i]
                    && (range@[i].0 + (val.shape()[i] - 1) * (if step is Some {
                    step->Some_0@[i]
                } else {
                    1
                })) < old(self).shape()[i],
        ensures
            final(self).shape() == old(self).shape(),
            final(self).data().len() == old(self).data().len(),
            final(self).wf(),
            // every patch element lands on its target position, and nothing
            // outside the targeted positions changes
            forall|li: int|
                0 <= li < val.data().len() ==> final(self).data()[lin_index(
                    old(self).shape(),
                    #[trigger] patch_pos(
                        val.shape(),
                        range@,
                        step_seq(step, range@.len() as int),
                        li,
                    ),
                )] == val.data()[li],
            forall|j: int|
                0 <= j < old(self).data().len() && !(exists|li: int|
                    0 <= li < val.data().len() && lin_index(
                        old(self).shape(),
                        #[trigger] patch_pos(
                            val.shape(),
                            range@,
                            step_seq(step, range@.len() as int),
                            li,
                        ),
                    ) == j) ==> #[trigger] final(self).data()[j] == old(self).data()[j],
    {
        let n = self.dim.len();
        let ghost sts = step_seq(step, range@.len() as int);
        let ghost vs = val.shape();
        let ghost shape0 = old(self).shape();
        proof {
            assert(sts.len() == n && forall|w: int| 0 <= w < n ==> #[trigger] sts[w] >= 1);
        }
        let total = val.numel();
        let mut li: usize = 0;
        while li < total
            invariant
                li <= total,
                n == self.shape().len(),
                self.wf(),
                val.wf(),
                total == val.data().len(),
                self.shape() == old(self).shape(),
                self.data().len() == old(self).data().len(),
                range@.len() == n,
                val.shape().len() == n,
                forall|i: int|
                    0 <= i < range@.len() ==> (#[trigger] range@[i]).0 < range@[i].1 && range@[i].1
                        <= self.shape()[i],
                step is Some ==> step->Some_0@.len() == n && (forall|i: int|
                    0 <= i < step->Some_0@.len() ==> #[trigger] step->Some_0@[i] >= 1),
                forall|i: int|
                    0 <= i < val.shape().len() ==> 1 <= #[trigger] val.shape()[i]
                        && (range@[i].0 + (val.shape()[i] - 1) * (if step is Some {
                        step->Some_0@[i]
                    } else {
                        1
                    })) < self.shape()[i],
                sts == step_seq(step, range@.len() as int),
                sts.len() == n && (forall|w: int| 0 <= w < n ==> #[trigger] sts[w] >= 1),
                vs == val.shape(),
                shape0 == old(self).shape(),
                forall|q2: int|
                    0 <= q2 < li ==> self.data()[lin_index(
                        shape0,
                        #[trigger] patch_pos(vs, range@, sts, q2),
                    )] == val.data()[q2],
                forall|j: int|
                    0 <= j < old(self).data().len() && !(exists|q2: int|
                        0 <= q2 < li && lin_index(
                            shape0,
                            #[trigger] patch_pos(vs, range@, sts, q2),
                        ) == j) ==> #[trigger] self.data()[j] == old(self).data()[j],
            decreases total - li,
        {
            let pos = val.index2dimpos(li);
            proof {
                lemma_multi_index_roundtrip(vs, pos@);
                assert(multi_index_of(vs, li as int) == pos@);
            }
            let mut sidx: Vec<usize> = Vec::new();
            let mut q: usize = 0;
            while q < n
                invariant
                    q <= n,
                    n == self.shape().len(),
                    range@.len() == n,
                    val.shape().len() == n,
                    pos@.len() == n,
                    forall|w: int| 0 <= w < n ==> #[trigger] pos@[w] < val.shape()[w],
                    step is Some ==> step->Some_0@.len() == n && (forall|w: int|
                        0 <= w < step->Some_0@.len() ==> #[trigger] step->Some_0@[w] >= 1),
                    forall|i: int|
                        0 <= i < val.shape().len() ==> 1 <= #[trigger] val.shape()[i]
                            && (range@[i].0 + (val.shape()[i] - 1) * (if step is Some {
                            step->Some_0@[i]
                        } else {
                            1
                        })) < self.shape()[i],
                    sts.len() == n && (forall|w: int| 0 <= w < n ==> #[trigger] sts[w] >= 1),
                    sts == step_seq(step, range@.len() as int),
                    sidx@.len() == q,
                    forall|w: int| 0 <= w < q ==> #[trigger] sidx@[w] < self.shape()[w],
                    forall|w: int|
                        0 <= w < q ==> #[trigger] sidx@[w] == range@[w].0 + pos@[w] * sts[w],
                decreases n - q,
            {
                let st: usize = match step {
                    Some(sv) => sv[q],
                    None => 1,
                };
                let lo = range[q].0;
                proof {
                    assert(st == sts[q as int]);
                    assert(pos@[q as int] * st <= (val.shape()[q as int] - 1) * st)
                        by (nonlinear_arith)
                        requires
                            pos@[q as int] <= val.shape()[q as int] - 1,
                            st >= 0,
                    ;
                }
                sidx.push(lo + pos[q] * st);
                q = q + 1;
            }
            proof {
                lemma_patch_pos_in_range(shape0, vs, range@, sts, li as int);
                assert(sidx@ =~= patch_pos(vs, range@, sts, li as int));
                lemma_lin_from_bound(shape0, sidx@, 0);
            }
            let ghost target = lin_index(shape0, sidx@);
            let ghost before = self.data();
            let v = val.get_1d(li);
            self.set(sidx.as_slice(), v);
            proof {
                assert forall|q2: int|
                    0 <= q2 < li + 1 implies self.data()[lin_index(
                    shape0,
                    #[trigger] patch_pos(vs, range@, sts, q2),
                )] == val.data()[q2] by {
                    if q2 < li {
                        lemma_patch_target_inj(shape0, vs, range@, sts, q2, li as int);
                        assert(lin_index(shape0, patch_pos(vs, range@, sts, q2)) != target);
                        lemma_patch_pos_in_range(shape0, vs, range@, sts, q2);
                        lemma_lin_from_bound(shape0, patch_pos(vs, range@, sts, q2), 0);
                    } else {
                        assert(self.data()[target] == v);
                    }
                }
                assert forall|j: int|
                    0 <= j < old(self).data().len() && !(exists|q2: int|
                        0 <= q2 < li + 1 && lin_index(
                            shape0,
                            #[trigger] patch_pos(vs, range@, sts, q2),
                        ) == j) implies #[trigger] self.data()[j] == old(self).data()[j] by {
                    assert(lin_index(shape0, patch_pos(vs, range@, sts, li as int)) != j);
                    assert(j != target);
                    assert(self.data()[j] == before[j]);
                    assert(!(exists|q2: int|
                        0 <= q2 < li && lin_index(
                            shape0,
                            #[trigger] patch_pos(vs, range@, sts, q2),
                        ) == j));
                    assert(before[j] == old(self).data()[j]);
                }
            }
            li = li + 1;
        }
    }

    /// The value at linear index `o`.
    pub fn get_1d(&self, o: usize) -> (r: T)
        requires
            o < self.data().len(),
        ensures
            r == self.data()[o as int],
    {
        self.d[o]
    }
}

/// If one shape is bounded pointwise by another, so is every trailing
/// product.
proof fn lemma_prod_pointwise_le(a: Seq<usize>, b: Seq<usize>, i: int)
    requires
        a.len() == b.len(),
        forall|k: int| 0 <= k < a.len() ==> #[trigger] a[k] <= b[k],
        0 <= i <= a.len(),
    ensures
        prod_from(a, i) <= prod_from(b, i),
        forall|q: int| i <= q <= a.len() ==> prod_from(a, q) <= prod_from(b, q),
    decreases a.len() - i,
{
    if i == a.len() {
    } else {
        lemma_prod_pointwise_le(a, b, i + 1);
        lemma_prod_from_nonneg(a, i + 1);
        lemma_prod_from_nonneg(b, i + 1);
        assert(a[i] * prod_from(a, i + 1) <= b[i] * prod_from(b, i + 1)) by (nonlinear_arith)
            requires
                0 <= a[i] <= b[i],
                0 <= prod_from(a, i + 1) <= prod_from(b, i + 1),
        ;
    }
}


impl<T: num_traits::Float> GenTensor<T> {
    /// Reduce along axis `dim` with a per-lane statistic: the buffer splits
    /// into `outer` blocks of `over * inner` elements, and `closure` receives,
    /// for every (outer, inner) lane, the lane length `over`, the two lane
    /// coordinates, the inner block size and the lane stride. With `keepdim`
    /// the reduced axis stays with size one, otherwise it disappears.
    pub fn _dim_statistic<F: Fn(usize, usize, usize, usize, usize) -> T>(
        &self,
        dim: usize,
        keepdim: bool,
        closure: F,
    ) -> (r: GenTensor<T>)
        requires
            self.wf(),
            dim < self.shape().len(),
            forall|a: usize, b: usize, c: usize, d: usize, e: usize|
                #[trigger] closure.requires((a, b, c, d, e)),
        ensures
            keepdim ==> r.shape() == self.shape().update(dim as int, 1usize),
            !keepdim ==> r.shape() == self.shape().remove(dim as int),
    {
        let n = self.dim.len();
        let mut ret_dim: Vec<usize> = Vec::new();
        let mut i: usize = 0;
        while i < n
            invariant
                i <= n,
                n == self.shape().len(),
                dim < n,
                keepdim ==> ret_dim@ == self.shape().update(dim as int, 1usize).subrange(
                    0,
                    i as int,
                ),
                !keepdim && i <= dim ==> ret_dim@ == self.shape().subrange(0, i as int),
                !keepdim && i > dim ==> ret_dim@ == self.shape().remove(dim as int).subrange(
                    0,
                    i - 1 as int,
                ),
            decreases n - i,
        {
            if i == dim {
                if keepdim {
                    ret_dim.push(1);
                }
            } else {
                ret_dim.push(self.dim[i]);
            }
            proof {
                if keepdim {
                    assert(ret_dim@ =~= self.shape().update(dim as int, 1usize).subrange(
                        0,
                        i + 1 as int,
                    ));
                } else {
                    if i < dim {
                        assert(ret_dim@ =~= self.shape().subrange(0, i + 1 as int));
                    } else if i == dim {
                        assert(ret_dim@ =~= self.shape().subrange(0, i as int));
                        assert(self.shape().subrange(0, i as int) =~= self.shape().remove(
                            dim as int,
                        ).subrange(0, i as int));
                    } else {
                        assert(ret_dim@ =~= self.shape().remove(dim as int).subrange(0, i as int));
                    }
                }
            }
            i = i + 1;
        }
        proof {
            if keepdim {
                assert(ret_dim@ =~= self.shape().update(dim as int, 1usize));
            } else {
                assert(ret_dim@ =~= self.shape().remove(dim as int));
            }
        }
        let outer = Self::prefix_count_checked(&self.dim, dim);
        let over = self.dim[dim];
        let inner = Self::suffix_count(&self.dim, dim + 1);
        let step = inner;
        let mut data: Vec<T> = Vec::new();
        let mut k: usize = 0;
        while k < outer
            invariant
                k <= outer,
                forall|a: usize, b: usize, c: usize, d: usize, e: usize|
                    #[trigger] closure.requires((a, b, c, d, e)),
            decreases outer - k,
        {
            let mut j: usize = 0;
            while j < inner
                invariant
                    j <= inner,
                    k < outer,
                    forall|a: usize, b: usize, c: usize, d: usize, e: usize|
                        #[trigger] closure.requires((a, b, c, d, e)),
                decreases inner - j,
            {
                let val = closure(over, k, j, inner, step);
                data.push(val);
                j = j + 1;
            }
            k = k + 1;
        }
        GenTensor { d: data, dim: ret_dim }
    }

    /// The leading element count `prod_prefix(dims, upto)`, provided the
    /// total product is within bounds (so every prefix of a positive-volume
    /// shape is too); zero-volume shapes yield the count up to the first
    /// zero-sized axis, capped to fit.
    fn prefix_count_checked(dims: &Vec<usize>, upto: usize) -> (r: usize)
        requires
            upto <= dims@.len(),
        ensures
            prod_from(dims@, 0) > 0 && (forall|q: int|
                0 <= q <= dims@.len() ==> prod_from(dims@, q) <= usize::MAX) ==> r as int
                == prod_prefix(dims@, upto as int),
    {
        let mut acc: usize = 1;
        let mut i: usize = 0;
        while i < upto
            invariant
                i <= upto,
                upto <= dims@.len(),
                acc <= usize::MAX,
                prod_from(dims@, 0) > 0 && (forall|q: int|
                    0 <= q <= dims@.len() ==> prod_from(dims@, q) <= usize::MAX) ==> acc as int
                    == prod_prefix(dims@, i as int),
            decreases upto - i,
        {
            let di = dims[i];
            if di != 0 && acc <= usize::MAX / di {
                proof {
                    let all_ok = prod_from(dims@, 0) > 0 && (forall|q: int|
                        0 <= q <= dims@.len() ==> prod_from(dims@, q) <= usize::MAX);
                    if all_ok {
                        assert(prod_prefix(dims@, i + 1 as int) == prod_prefix(dims@, i as int)
                            * dims@[i as int]);
                    }
                    assert(acc * di <= (usize::MAX / di) * di <= usize::MAX) by (nonlinear_arith)
                        requires
                            di >= 1,
                            acc <= usize::MAX / di,
                    ;
                }
                acc = acc * di;
            } else {
                proof {
                    let all_ok = prod_from(dims@, 0) > 0 && (forall|q: int|
                        0 <= q <= dims@.len() ==> prod_from(dims@, q) <= usize::MAX);
                    if all_ok {
                        lemma_prod_from_pos(dims@, 0);
                        assert(dims@[i as int] > 0);
                        lemma_prefix_within(dims@, i + 1 as int);
                        assert(prod_prefix(dims@, i + 1 as int) == prod_prefix(dims@, i as int)
                            * dims@[i as int]);
                        assert(acc as int * di as int <= usize::MAX);
                        assert(acc <= usize::MAX / di) by (nonlinear_arith)
                            requires
                                di >= 1,
                                acc * di <= usize::MAX,
                        ;
                        assert(false);
                    }
                }
                acc = 0;
            }
            i = i + 1;
        }
        acc
    }
}

/// For a positive-volume shape with bounded trailing products, every leading
/// product is bounded by the total.
proof fn lemma_prefix_within(dims: Seq<usize>, i: int)
    requires
        prod_from(dims, 0) > 0,
        forall|q: int| 0 <= q <= dims.len() ==> prod_from(dims, q) <= usize::MAX,
        0 <= i <= dims.len(),
    ensures
        prod_prefix(dims, i) <= usize::MAX,
{
    lemma_prod_split(dims, i);
    lemma_prod_from_pos(dims, i);
    lemma_prod_prefix_nonneg(dims, i);
    assert(prod_prefix(dims, i) <= prod_prefix(dims, i) * prod_from(dims, i)) by (nonlinear_arith)
        requires
            prod_from(dims, i) >= 1,
            prod_prefix(dims, i) >= 0,
    ;
}


/// Two position sequences that agree on every axis at or after `i` give the
/// same linear value from `i`.
proof fn lemma_lin_from_agree(dims: Seq<usize>, a: Seq<usize>, b: Seq<usize>, i: int)
    requires
        a.len() == b.len(),
        forall|q: int| i <= q < a.len() ==> a[q] == b[q],
    ensures
        lin_from(dims, a, i) == lin_from(dims, b, i),
    decreases a.len() - i,
{
    if 0 <= i && i < a.len() {
        lemma_lin_from_agree(dims, a, b, i + 1);
    }
}

/// The mixed-radix representation is injective: two in-range positions with
/// the same row-major linear index are the same position.
pub proof fn lemma_lin_injective(dims: Seq<usize>, p1: Seq<usize>, p2: Seq<usize>, i: int)
    requires
        p1.len() == dims.len(),
        p2.len() == dims.len(),
        forall|q: int| 0 <= q < dims.len() ==> p1[q] < dims[q],
        forall|q: int| 0 <= q < dims.len() ==> p2[q] < dims[q],
        0 <= i <= dims.len(),
        lin_from(dims, p1, i) == lin_from(dims, p2, i),
    ensures
        forall|q: int| i <= q < dims.len() ==> p1[q] == p2[q],
    decreases dims.len() - i,
{
    if i < dims.len() {
        lemma_lin_from_bound(dims, p1, i + 1);
        lemma_lin_from_bound(dims, p2, i + 1);
        lemma_prod_from_nonneg(dims, i + 1);
        assert(p1[i] == p2[i] && lin_from(dims, p1, i + 1) == lin_from(dims, p2, i + 1))
            by (nonlinear_arith)
            requires
                p1[i] * prod_from(dims, i + 1) + lin_from(dims, p1, i + 1) == p2[i] * prod_from(
                    dims,
                    i + 1,
                ) + lin_from(dims, p2, i + 1),
                0 <= lin_from(dims, p1, i + 1) < prod_from(dims, i + 1),
                0 <= lin_from(dims, p2, i + 1) < prod_from(dims, i + 1),
                p1[i] >= 0,
                p2[i] >= 0,
        ;
        lemma_lin_injective(dims, p1, p2, i + 1);
    }
}

/// Every linear index below the total element count has an in-range
/// mixed-radix representation.
proof fn lemma_mixed_radix_exists(dims: Seq<usize>, li: int, i: int)
    requires
        0 <= i <= dims.len(),
        0 <= li < prod_from(dims, i),
    ensures
        exists|p: Seq<usize>|
            {
                &&& #[trigger] p.len() == dims.len()
                &&& forall|q: int| i <= q < dims.len() ==> p[q] < dims[q]
                &&& lin_from(dims, p, i) == li
            },
    decreases dims.len() - i,
{
    if i == dims.len() {
        let p = Seq::<usize>::new(dims.len(), |q: int| 0usize);
        assert(p.len() == dims.len() && lin_from(dims, p, i) == li);
    } else {
        let pr = prod_from(dims, i + 1);
        lemma_prod_from_nonneg(dims, i + 1);
        assert(pr > 0) by (nonlinear_arith)
            requires
                dims[i] * pr > li >= 0,
                pr >= 0,
                dims[i] >= 0,
        ;
        let q0 = li / pr;
        let rest = li % pr;
        assert(li == q0 * pr + rest && 0 <= rest < pr && q0 >= 0 && q0 < dims[i])
            by (nonlinear_arith)
            requires
                pr > 0,
                0 <= li < dims[i] * pr,
                q0 == li / pr,
                rest == li % pr,
        ;
        lemma_mixed_radix_exists(dims, rest, i + 1);
        let p2 = choose|p2: Seq<usize>|
            {
                &&& #[trigger] p2.len() == dims.len()
                &&& forall|q: int| i + 1 <= q < dims.len() ==> p2[q] < dims[q]
                &&& lin_from(dims, p2, i + 1) == rest
            };
        let p = p2.update(i, q0 as usize);
        lemma_lin_from_agree(dims, p, p2, i + 1);
        assert(p.len() == dims.len() && lin_from(dims, p, i) == li);
    }
}

/// The in-range multi-index whose row-major linear index in shape `dims` is
/// `li`: well defined below the total element count, by existence and
/// injectivity of the mixed-radix representation.
pub open spec fn multi_index_of(dims: Seq<usize>, li: int) -> Seq<usize> {
    choose|p: Seq<usize>|
        {
            &&& #[trigger] p.len() == dims.len()
            &&& forall|q: int| 0 <= q < dims.len() ==> p[q] < dims[q]
            &&& lin_index(dims, p) == li
        }
}

/// `multi_index_of` inverts `lin_index` on in-range positions.
pub proof fn lemma_multi_index_roundtrip(dims: Seq<usize>, pos: Seq<usize>)
    requires
        pos.len() == dims.len(),
        forall|q: int| 0 <= q < dims.len() ==> pos[q] < dims[q],
    ensures
        multi_index_of(dims, lin_index(dims, pos)) == pos,
{
    let li = lin_index(dims, pos);
    assert(exists|p: Seq<usize>|
        {
            &&& #[trigger] p.len() == dims.len()
            &&& forall|q: int| 0 <= q < dims.len() ==> p[q] < dims[q]
            &&& lin_index(dims, p) == li
        }) by {
        assert(pos.len() == dims.len() && (forall|q: int|
            0 <= q < dims.len() ==> pos[q] < dims[q]) && lin_index(dims, pos) == li);
    }
    let p = multi_index_of(dims, li);
    lemma_lin_injective(dims, p, pos, 0);
    assert(p =~= pos);
}


/// The per-axis patch step: the given steps, or one everywhere.
pub open spec fn step_seq(step: Option<&[usize]>, n: int) -> Seq<usize> {
    if step is Some {
        step->Some_0@
    } else {
        Seq::new(n as nat, |q: int| 1usize)
    }
}

/// The position that element number `li` of a patch of shape `vdims`
/// addresses in the surrounding tensor: per axis, the range start plus the
/// element's own coordinate times the step.
pub open spec fn patch_pos(
    vdims: Seq<usize>,
    range: Seq<(usize, usize)>,
    st: Seq<usize>,
    li: int,
) -> Seq<usize> {
    Seq::new(vdims.len(), |q: int| (range[q].0 + multi_index_of(vdims, li)[q] * st[q]) as usize)
}

/// An in-range linear index has an in-range multi-index with that linear
/// value.
pub proof fn lemma_multi_index_props(dims: Seq<usize>, li: int)
    requires
        0 <= li < prod_from(dims, 0),
    ensures
        multi_index_of(dims, li).len() == dims.len(),
        forall|q: int| 0 <= q < dims.len() ==> multi_index_of(dims, li)[q] < dims[q],
        lin_index(dims, multi_index_of(dims, li)) == li,
{
    lemma_mixed_radix_exists(dims, li, 0);
    let w = choose|p: Seq<usize>|
        {
            &&& #[trigger] p.len() == dims.len()
            &&& forall|q: int| 0 <= q < dims.len() ==> p[q] < dims[q]
            &&& lin_from(dims, p, 0) == li
        };
    assert(exists|p: Seq<usize>|
        {
            &&& #[trigger] p.len() == dims.len()
            &&& forall|q: int| 0 <= q < dims.len() ==> p[q] < dims[q]
            &&& lin_index(dims, p) == li
        }) by {
        assert(w.len() == dims.len() && (forall|q: int| 0 <= q < dims.len() ==> w[q] < dims[q])
            && lin_index(dims, w) == li);
    }
}

/// The patch target of an in-range patch element is in range, axis by axis,
/// with no truncation in the arithmetic.
proof fn lemma_patch_pos_in_range(
    dims: Seq<usize>,
    vdims: Seq<usize>,
    range: Seq<(usize, usize)>,
    st: Seq<usize>,
    li: int,
)
    requires
        range.len() == dims.len(),
        vdims.len() == dims.len(),
        st.len() == dims.len(),
        forall|q: int| 0 <= q < st.len() ==> #[trigger] st[q] >= 1,
        forall|q: int|
            0 <= q < vdims.len() ==> 1 <= #[trigger] vdims[q] && range[q].0 + (vdims[q] - 1)
                * st[q] < dims[q],
        0 <= li < prod_from(vdims, 0),
    ensures
        patch_pos(vdims, range, st, li).len() == dims.len(),
        forall|q: int|
            0 <= q < dims.len() ==> (#[trigger] patch_pos(
                vdims,
                range,
                st,
                li,
            )[q]) == range[q].0 + multi_index_of(vdims, li)[q] * st[q] && patch_pos(vdims, range, st, li)[q] < dims[q],
{
    lemma_multi_index_props(vdims, li);
    let mi = multi_index_of(vdims, li);
    assert forall|q: int|
        0 <= q < dims.len() implies range[q].0 + mi[q] * st[q] < dims[q] by {
        assert(mi[q] * st[q] <= (vdims[q] - 1) * st[q]) by (nonlinear_arith)
            requires
                mi[q] <= vdims[q] - 1,
                st[q] >= 0,
        ;
    }
}

/// Distinct patch elements land on distinct linear targets.
proof fn lemma_patch_target_inj(
    dims: Seq<usize>,
    vdims: Seq<usize>,
    range: Seq<(usize, usize)>,
    st: Seq<usize>,
    li1: int,
    li2: int,
)
    requires
        range.len() == dims.len(),
        vdims.len() == dims.len(),
        st.len() == dims.len(),
        forall|q: int| 0 <= q < st.len() ==> #[trigger] st[q] >= 1,
        forall|q: int|
            0 <= q < vdims.len() ==> 1 <= #[trigger] vdims[q] && range[q].0 + (vdims[q] - 1)
                * st[q] < dims[q],
        0 <= li1 < prod_from(vdims, 0),
        0 <= li2 < prod_from(vdims, 0),
        li1 != li2,
    ensures
        lin_index(dims, patch_pos(vdims, range, st, li1)) != lin_index(
            dims,
            patch_pos(vdims, range, st, li2),
        ),
{
    let t1 = patch_pos(vdims, range, st, li1);
    let t2 = patch_pos(vdims, range, st, li2);
    lemma_patch_pos_in_range(dims, vdims, range, st, li1);
    lemma_patch_pos_in_range(dims, vdims, range, st, li2);
    lemma_multi_index_props(vdims, li1);
    lemma_multi_index_props(vdims, li2);
    let m1 = multi_index_of(vdims, li1);
    let m2 = multi_index_of(vdims, li2);
    if lin_index(dims, t1) == lin_index(dims, t2) {
        lemma_lin_injective(dims, t1, t2, 0);
        assert forall|q: int| 0 <= q < vdims.len() implies m1[q] == m2[q] by {
            assert(t1[q] == t2[q]);
            assert(range[q].0 + m1[q] * st[q] == range[q].0 + m2[q] * st[q]);
            assert(m1[q] == m2[q]) by (nonlinear_arith)
                requires
                    m1[q] * st[q] == m2[q] * st[q],
                    st[q] >= 1,
                    m1[q] >= 0,
                    m2[q] >= 0,
            ;
        }
        assert(m1 =~= m2);
        assert(lin_index(vdims, m1) == li1 && lin_index(vdims, m2) == li2);
    }
}

} // verus!
