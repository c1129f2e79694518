//! Dense N-dimensional storage addressed in row-major order.
use crate::utils::{
    cell_of, from_linear, positive_shape, lemma_cell_of_within, linear_of, shape_product, stride, to_linear,
    within_shape,
};
use vstd::prelude::*;

verus! {

/// A box of `shape` values, stored with the first axis varying fastest.
#[derive(Debug, Clone)]
pub struct Array<T, const N: usize> {
    shape: [u32; N],
    data: Vec<T>,
}

impl<T, const N: usize> Array<T, N> {
    /// Extents of the box.
    pub closed spec fn spec_shape(&self) -> Seq<u32> {
        self.shape@
    }

    /// The values, in linear order.
    pub closed spec fn spec_data(&self) -> Seq<T> {
        self.data@
    }

    /// One value for each cell of the box, and a box small enough to address.
    pub open spec fn wf(&self) -> bool {
        &&& self.spec_shape().len() == N
        &&& self.spec_data().len() == shape_product(self.spec_shape())
        &&& shape_product(self.spec_shape()) <= usize::MAX
    }

    /// The value stored for cell `index`.
    pub open spec fn spec_at(&self, index: Seq<u32>) -> T {
        self.spec_data()[linear_of(index, self.spec_shape()) as int]
    }

    /// Extents of the box.
    pub fn shape(&self) -> (r: [u32; N])
        ensures
            r@ == self.spec_shape(),
    {
        self.shape
    }

    /// Row-major strides of the box: one for the first axis, and for each
    /// further axis the product of the extents before it.
    pub fn steps(&self) -> (r: [u32; N])
        requires
            forall|i: int| 0 <= i < N ==> stride(self.spec_shape(), i) <= u32::MAX,
        ensures
            forall|i: int| 0 <= i < N ==> r[i] as nat == stride(self.spec_shape(), i),
    {
        let mut steps: [u32; N] = [1u32; N];
        let mut i: usize = 1;
        proof {
            assert(self.spec_shape().take(0) =~= Seq::<u32>::empty());
        }
        while i < N
            invariant
                1 <= i,
                i <= N || N == 0,
                forall|i: int| 0 <= i < N ==> stride(self.spec_shape(), i) <= u32::MAX,
                forall|k: int| 0 <= k < i && k < N ==> steps[k] as nat == stride(self.spec_shape(), k),
            decreases N - i,
        {
            proof {
                assert(self.spec_shape().take(i as int).drop_last() =~= self.spec_shape().take(i - 1));
                assert(stride(self.spec_shape(), i as int) == stride(self.spec_shape(), i - 1) * (
                self.spec_shape()[i - 1] as nat));
            }
            let next = steps[i - 1] * self.shape[i - 1];
            steps[i] = next;
            i += 1;
        }
        steps
    }

    /// The box `shape` holding `f(cell)` at each cell, called in linear order.
    pub fn from_fn<F: Fn([u32; N]) -> T>(shape: [u32; N], f: F) -> (r: Self)
        requires
            shape_product(shape@) <= usize::MAX,
            forall|idx: [u32; N]| within_shape(idx@, shape@) ==> #[trigger] f.requires((idx,)),
        ensures
            r.wf(),
            r.spec_shape() == shape@,
            forall|k: int, idx: [u32; N]|
                0 <= k < r.spec_data().len() && idx@ == cell_of(k as nat, shape@) ==> #[trigger] f.ensures(
                    (idx,),
                    r.spec_data()[k],
                ),
    {
        let size = product_of(shape);
        let mut data: Vec<T> = Vec::with_capacity(size);
        let mut k: usize = 0;
        while k < size
            invariant
                k <= size,
                size as nat == shape_product(shape@),
                data@.len() == k,
                forall|idx: [u32; N]| within_shape(idx@, shape@) ==> #[trigger] f.requires((idx,)),
                forall|j: int, idx: [u32; N]|
                    0 <= j < k && idx@ == cell_of(j as nat, shape@) ==> #[trigger] f.ensures(
                        (idx,),
                        data@[j],
                    ),
            decreases size - k,
        {
            proof {
                lemma_cell_of_within(k as nat, shape@);
                crate::utils::lemma_product_positive(shape@);
            }
            let idx = from_linear(k, shape);
            proof {
                assert(idx@ =~= cell_of(k as nat, shape@));
            }
            let v = f(idx);
            data.push(v);
            proof {
                assert forall|j: int, idx2: [u32; N]|
                    0 <= j < k + 1 && idx2@ == cell_of(j as nat, shape@) implies #[trigger] f.ensures(
                    (idx2,),
                    data@[j],
                ) by {
                    if j == k {
                        assert(idx2@ =~= idx@);
                        assert(idx2 == idx);
                    }
                }
            }
            k += 1;
        }
        Array { shape, data }
    }

    /// The box `shape` holding `data`, whose values are in linear order.
    pub fn from_vec(shape: [u32; N], data: Vec<T>) -> (r: Self)
        requires
            shape_product(shape@) <= usize::MAX,
            data@.len() == shape_product(shape@),
        ensures
            r.wf(),
            r.spec_shape() == shape@,
            r.spec_data() == data@,
    {
        Array { shape, data }
    }

    /// The box `shape` holding a clone of `t` at each cell.
    pub fn repeat(shape: [u32; N], t: T) -> (r: Self) where T: Clone
        requires
            shape_product(shape@) <= usize::MAX,
        ensures
            r.wf(),
            r.spec_shape() == shape@,
            forall|k: int| 0 <= k < r.spec_data().len() ==> cloned(t, #[trigger] r.spec_data()[k]),
    {
        let size = product_of(shape);
        let mut data: Vec<T> = Vec::with_capacity(size);
        let mut k: usize = 0;
        while k < size
            invariant
                k <= size,
                size as nat == shape_product(shape@),
                data@.len() == k,
                forall|j: int| 0 <= j < k ==> cloned(t, #[trigger] data@[j]),
            decreases size - k,
        {
            data.push(t.clone());
            k += 1;
        }
        Array { shape, data }
    }

    /// Whether `index` names a cell of the box.
    pub fn contains(&self, index: [u32; N]) -> (r: bool)
        ensures
            r == within_shape(index@, self.spec_shape()),
    {
        let mut i: usize = 0;
        while i < N
            invariant
                i <= N,
                forall|k: int| 0 <= k < i ==> index[k] < self.shape[k],
            decreases N - i,
        {
            if index[i] >= self.shape[i] {
                return false;
            }
            i += 1;
        }
        true
    }

    /// The value stored for cell `index`.
    pub fn get(&self, index: [u32; N]) -> (r: &T)
        requires
            self.wf(),
            within_shape(index@, self.spec_shape()),
        ensures
            *r == self.spec_at(index@),
    {
        let k = to_linear(index, self.shape);
        &self.data[k]
    }

    /// Replaces the value stored for cell `index`.
    pub fn set(&mut self, index: [u32; N], value: T)
        requires
            old(self).wf(),
            within_shape(index@, old(self).spec_shape()),
        ensures
            final(self).wf(),
            final(self).spec_shape() == old(self).spec_shape(),
            final(self).spec_data() == old(self).spec_data().update(
                linear_of(index@, old(self).spec_shape()) as int,
                value,
            ),
    {
        let k = to_linear(index, self.shape);
        self.data.set(k, value);
    }
}

/// Number of cells in the box `shape`.
pub fn product_of<const N: usize>(shape: [u32; N]) -> (r: usize)
    requires
        shape_product(shape@) <= usize::MAX,
    ensures
        r as nat == shape_product(shape@),
{
    let mut j: usize = 0;
    while j < N
        invariant
            j <= N,
            forall|k: int| 0 <= k < j ==> shape[k] > 0,
        decreases N - j,
    {
        if shape[j] == 0 {
            proof {
                crate::utils::lemma_zero_extent(shape@, j as int);
            }
            return 0;
        }
        j += 1;
    }
    let mut p: usize = 1;
    let mut i: usize = 0;
    proof {
        assert(shape@.take(0) =~= Seq::<u32>::empty());
        assert(shape@.take(N as int) =~= shape@);
    }
    while i < N
        invariant
            i <= N,
            positive_shape(shape@),
            shape_product(shape@) <= usize::MAX,
            shape@.take(N as int) =~= shape@,
            p as nat == shape_product(shape@.take(i as int)),
        decreases N - i,
    {
        proof {
            assert(shape@.take(i + 1).drop_last() =~= shape@.take(i as int));
            crate::utils::lemma_stride_monotone(shape@, i as int + 1, N as int);
        }
        p = p * (shape[i] as usize);
        i += 1;
    }
    p
}

} // verus!
