//! The n-dimensional array type and the nested-vector wrappers.

use vstd::prelude::*;
use crate::shape::{
    flat_index, flat_prefix, indices_in_range, lemma_flat_prefix_monotone, lemma_seq_prod_nonneg,
    lookup_fits, running_prod_fits, seq_prod, valid_index, lemma_seq_prod_zero, lemma_seq_prod_take_le,
};

verus! {

/// A multi-dimensional array: `dims` holds the extent of each dimension and
/// `data` the elements, flattened in row-major order (the last index varies
/// fastest). PostgreSQL arrays have at most six dimensions.
#[derive(Debug, Clone, PartialEq, Eq, Hash, PartialOrd, Ord)]
pub struct NdArray<T> {
    pub dims: Vec<usize>,
    pub data: Vec<T>,
}

/// Product of `dims[from..]`, multiplied from the left.
fn suffix_product(dims: &Vec<usize>, from: usize) -> (p: usize)
    requires
        from <= dims@.len(),
        running_prod_fits(dims@.skip(from as int)),
    ensures
        p == seq_prod(dims@.skip(from as int)),
{
    let ghost s = dims@.skip(from as int);
    let mut p: usize = 1;
    let mut k: usize = from;
    assert(s.take(0) =~= Seq::<usize>::empty());
    while k < dims.len()
        invariant
            from <= k <= dims@.len(),
            s == dims@.skip(from as int),
            running_prod_fits(s),
            p == seq_prod(s.take(k - from)),
        decreases dims@.len() - k,
    {
        let ghost j: int = k - from;
        assert(s.take(j + 1).drop_last() =~= s.take(j));
        assert(seq_prod(s.take(j + 1)) <= usize::MAX);
        p = p * dims[k];
        k = k + 1;
    }
    assert(s.take(s.len() as int) =~= s);
    p
}


/// The number of elements of the shape `dims`, when it fits in a `usize`.
pub fn element_count(dims: &Vec<usize>) -> (r: Option<usize>)
    ensures
        r == (if seq_prod(dims@) <= usize::MAX {
            Some(seq_prod(dims@) as usize)
        } else {
            None::<usize>
        }),
{
    let mut i: usize = 0;
    while i < dims.len()
        invariant
            i <= dims@.len(),
            forall|j: int| 0 <= j < i ==> #[trigger] dims@[j] >= 1,
        decreases dims@.len() - i,
    {
        if dims[i] == 0 {
            proof {
                lemma_seq_prod_zero(dims@, i as int);
            }
            return Some(0);
        }
        i = i + 1;
    }
    let mut p: usize = 1;
    let mut k: usize = 0;
    assert(dims@.take(0) =~= Seq::<usize>::empty());
    while k < dims.len()
        invariant
            k <= dims@.len(),
            forall|j: int| 0 <= j < dims@.len() ==> #[trigger] dims@[j] >= 1,
            p == seq_prod(dims@.take(k as int)),
        decreases dims@.len() - k,
    {
        assert(dims@.take(k + 1).drop_last() =~= dims@.take(k as int));
        match p.checked_mul(dims[k]) {
            Some(q) => {
                p = q;
            },
            None => {
                proof {
                    lemma_seq_prod_take_le(dims@, k + 1);
                }
                return None;
            },
        }
        k = k + 1;
    }
    assert(dims@.take(dims@.len() as int) =~= dims@);
    Some(p)
}

/// Whether every running product of `dims` fits in a `usize`; if so, the product.
pub fn running_count(dims: &Vec<usize>) -> (r: Option<usize>)
    ensures
        r is Some <==> running_prod_fits(dims@),
        r matches Some(p) ==> p == seq_prod(dims@),
{
    let mut p: usize = 1;
    let mut k: usize = 0;
    assert(dims@.take(0) =~= Seq::<usize>::empty());
    while k < dims.len()
        invariant
            k <= dims@.len(),
            p == seq_prod(dims@.take(k as int)),
            forall|j: int| 0 <= j <= k ==> #[trigger] seq_prod(dims@.take(j)) <= usize::MAX,
        decreases dims@.len() - k,
    {
        assert(dims@.take(k + 1).drop_last() =~= dims@.take(k as int));
        match p.checked_mul(dims[k]) {
            Some(q) => {
                p = q;
            },
            None => {
                assert(seq_prod(dims@.take(k + 1)) > usize::MAX);
                return None;
            },
        }
        k = k + 1;
    }
    assert(dims@.take(dims@.len() as int) =~= dims@);
    Some(p)
}

impl<T> NdArray<T> {
    /// Looks up the element at the multi-index `indices`: `None` when the number
    /// of indices differs from the number of dimensions, when an index is out of
    /// its extent, or when the row-major offset lies past the stored data.
    pub fn get(&self, indices: &[usize]) -> (r: Option<&T>)
        requires
            lookup_fits(self.dims@, indices@),
        ensures
            r == (if valid_index(self.dims@, indices@) && flat_index(self.dims@, indices@)
                < self.data@.len() {
                Some(&self.data@[flat_index(self.dims@, indices@)])
            } else {
                None
            }),
    {
        let len = self.dims.len();
        if indices.len() != len {
            return None;
        }
        let mut offset: usize = 0;
        let mut i: usize = 0;
        while i < len
            invariant
                len == self.dims@.len(),
                indices@.len() == len,
                0 <= i <= len,
                lookup_fits(self.dims@, indices@),
                indices_in_range(self.dims@, indices@, i as int),
                offset == flat_prefix(self.dims@, indices@, i as int),
            decreases len - i,
        {
            if indices[i] >= self.dims[i] {
                return None;
            }
            assert(indices_in_range(self.dims@, indices@, i + 1));
            let stride = suffix_product(&self.dims, i + 1);
            proof {
                lemma_flat_prefix_monotone(self.dims@, indices@, i as int, i + 1);
                lemma_seq_prod_nonneg(self.dims@.skip(i + 1));
                vstd::arithmetic::mul::lemma_mul_nonnegative(indices@[i as int] as int, stride as int);
            }
            offset = offset + indices[i] * stride;
            i = i + 1;
        }
        if offset < self.data.len() {
            Some(&self.data[offset])
        } else {
            None
        }
    }
}

} // verus!
