//! Mathematical model of an array shape: element counts and row-major offsets.

use vstd::prelude::*;

verus! {

/// Product of a sequence of extents, multiplied from the left.
pub open spec fn seq_prod(s: Seq<usize>) -> int
    decreases s.len(),
{
    if s.len() == 0 {
        1
    } else {
        seq_prod(s.drop_last()) * s.last()
    }
}

/// Every running product taken from the left fits in a `usize`.
pub open spec fn running_prod_fits(s: Seq<usize>) -> bool {
    forall|k: int| 0 <= k <= s.len() ==> #[trigger] seq_prod(s.take(k)) <= usize::MAX
}

/// The first `m` indices lie inside their extents.
pub open spec fn indices_in_range(dims: Seq<usize>, indices: Seq<usize>, m: int) -> bool {
    forall|j: int| 0 <= j < m ==> #[trigger] indices[j] < dims[j]
}

/// Row-major offset contributed by the first `m` indices: index `j` is weighted
/// by the product of the extents after it.
pub open spec fn flat_prefix(dims: Seq<usize>, indices: Seq<usize>, m: int) -> int
    decreases m,
{
    if m <= 0 {
        0
    } else {
        flat_prefix(dims, indices, m - 1) + indices[m - 1] * seq_prod(dims.skip(m))
    }
}

/// Row-major offset of a full multi-index.
pub open spec fn flat_index(dims: Seq<usize>, indices: Seq<usize>) -> int {
    flat_prefix(dims, indices, dims.len() as int)
}

/// A full multi-index that addresses an element of the shape `dims`.
pub open spec fn valid_index(dims: Seq<usize>, indices: Seq<usize>) -> bool {
    &&& indices.len() == dims.len()
    &&& indices_in_range(dims, indices, dims.len() as int)
}

/// The offset arithmetic for `indices` stays within `usize`: for every position
/// that a lookup reaches, the stride after it and the partial offset fit.
pub open spec fn lookup_fits(dims: Seq<usize>, indices: Seq<usize>) -> bool {
    indices.len() == dims.len() ==> forall|i: int|
        0 <= i < dims.len() && #[trigger] indices_in_range(dims, indices, i + 1) ==> {
            &&& running_prod_fits(dims.skip(i + 1))
            &&& flat_prefix(dims, indices, i + 1) <= usize::MAX
        }
}

pub proof fn lemma_seq_prod_nonneg(s: Seq<usize>)
    ensures
        seq_prod(s) >= 0,
    decreases s.len(),
{
    if s.len() > 0 {
        lemma_seq_prod_nonneg(s.drop_last());
        vstd::arithmetic::mul::lemma_mul_nonnegative(seq_prod(s.drop_last()), s.last() as int);
    }
}

pub proof fn lemma_flat_prefix_nonneg(dims: Seq<usize>, indices: Seq<usize>, m: int)
    ensures
        flat_prefix(dims, indices, m) >= 0,
    decreases m,
{
    if m > 0 {
        lemma_flat_prefix_nonneg(dims, indices, m - 1);
        lemma_seq_prod_nonneg(dims.skip(m));
        vstd::arithmetic::mul::lemma_mul_nonnegative(indices[m - 1] as int, seq_prod(dims.skip(m)));
    }
}

pub proof fn lemma_flat_prefix_monotone(dims: Seq<usize>, indices: Seq<usize>, a: int, b: int)
    requires
        0 <= a <= b,
    ensures
        0 <= flat_prefix(dims, indices, a) <= flat_prefix(dims, indices, b),
    decreases b - a,
{
    lemma_flat_prefix_nonneg(dims, indices, a);
    if a < b {
        lemma_flat_prefix_monotone(dims, indices, a, b - 1);
        lemma_seq_prod_nonneg(dims.skip(b));
        vstd::arithmetic::mul::lemma_mul_nonnegative(indices[b - 1] as int, seq_prod(dims.skip(b)));
    }
}


pub proof fn lemma_seq_prod_zero(s: Seq<usize>, i: int)
    requires
        0 <= i < s.len(),
        s[i] == 0,
    ensures
        seq_prod(s) == 0,
    decreases s.len(),
{
    if i == s.len() - 1 {
        assert(s.last() == 0);
    } else {
        lemma_seq_prod_zero(s.drop_last(), i);
    }
}

/// With no zero extent, a prefix product is at least 1 and at most the whole product.
pub proof fn lemma_seq_prod_take_le(s: Seq<usize>, k: int)
    requires
        0 <= k <= s.len(),
        forall|j: int| 0 <= j < s.len() ==> #[trigger] s[j] >= 1,
    ensures
        1 <= seq_prod(s.take(k)) <= seq_prod(s),
    decreases s.len(),
{
    if s.len() == 0 {
        assert(s.take(k) =~= s);
    } else if k == s.len() {
        assert(s.take(k) =~= s);
        lemma_seq_prod_take_le(s.drop_last(), k - 1);
        assert(s.drop_last().take(k - 1) =~= s.drop_last());
        let a = seq_prod(s.drop_last());
        let b = s.last() as int;
        assert(a * b >= 1) by (nonlinear_arith)
            requires
                a >= 1,
                b >= 1,
        ;
    } else {
        lemma_seq_prod_take_le(s.drop_last(), k);
        assert(s.drop_last().take(k) =~= s.take(k));
        let a = seq_prod(s.drop_last());
        let b = s.last() as int;
        assert(a <= a * b) by (nonlinear_arith)
            requires
                a >= 1,
                b >= 1,
        ;
    }
}


/// The product of a non-empty sequence is its first extent times the product
/// of the rest.
pub proof fn lemma_seq_prod_front(s: Seq<usize>)
    requires
        s.len() >= 1,
    ensures
        seq_prod(s) == s[0] * seq_prod(s.drop_first()),
    decreases s.len(),
{
    if s.len() == 1 {
        assert(s.drop_last() =~= Seq::<usize>::empty());
        assert(s.drop_first() =~= Seq::<usize>::empty());
    } else {
        let init = s.drop_last();
        lemma_seq_prod_front(init);
        assert(init.drop_first() =~= s.drop_first().drop_last());
        let a = s[0] as int;
        let b = seq_prod(init.drop_first());
        let c = s.last() as int;
        assert(a * b * c == a * (b * c)) by (nonlinear_arith);
    }
}

/// Each partial offset plus the stride still to be covered stays within the
/// element count.
pub proof fn lemma_flat_prefix_bound(dims: Seq<usize>, indices: Seq<usize>, m: int)
    requires
        indices.len() == dims.len(),
        indices_in_range(dims, indices, m),
        0 <= m <= dims.len(),
    ensures
        flat_prefix(dims, indices, m) + seq_prod(dims.skip(m)) <= seq_prod(dims),
    decreases m,
{
    if m == 0 {
        assert(dims.skip(0) =~= dims);
    } else {
        assert(indices_in_range(dims, indices, m - 1));
        lemma_flat_prefix_bound(dims, indices, m - 1);
        let tail = dims.skip(m - 1);
        lemma_seq_prod_front(tail);
        assert(tail.drop_first() =~= dims.skip(m));
        assert(tail[0] == dims[m - 1]);
        let p = seq_prod(dims.skip(m));
        lemma_seq_prod_nonneg(dims.skip(m));
        let x = indices[m - 1] as int;
        let d = dims[m - 1] as int;
        assert(x < d);
        assert(x * p + p <= d * p) by (nonlinear_arith)
            requires
                x < d,
                p >= 0,
        ;
    }
}

/// A valid multi-index addresses an offset below the element count of the
/// shape: in an array whose data has exactly that many elements, every valid
/// multi-index finds an element.
pub proof fn law_flat_index_in_bounds(dims: Seq<usize>, indices: Seq<usize>)
    requires
        valid_index(dims, indices),
    ensures
        0 <= flat_index(dims, indices) < seq_prod(dims),
{
    lemma_flat_prefix_bound(dims, indices, dims.len() as int);
    lemma_flat_prefix_nonneg(dims, indices, dims.len() as int);
    assert(dims.skip(dims.len() as int) =~= Seq::<usize>::empty());
}


/// On an array whose data holds exactly the element count of its shape, a
/// valid multi-index meets the lookup's precondition and addresses an element.
pub proof fn law_lookup_well_formed(dims: Seq<usize>, indices: Seq<usize>, data_len: nat)
    requires
        valid_index(dims, indices),
        data_len == seq_prod(dims),
        data_len <= usize::MAX,
    ensures
        lookup_fits(dims, indices),
        flat_index(dims, indices) < data_len,
{
    law_flat_index_in_bounds(dims, indices);
    assert forall|i: int|
        0 <= i < dims.len() && #[trigger] indices_in_range(dims, indices, i + 1) implies {
        &&& running_prod_fits(dims.skip(i + 1))
        &&& flat_prefix(dims, indices, i + 1) <= usize::MAX
    } by {
        let tail = dims.skip(i + 1);
        assert forall|j: int| 0 <= j < tail.len() implies #[trigger] tail[j] >= 1 by {
            assert(tail[j] == dims[i + 1 + j]);
            assert(indices[i + 1 + j] < dims[i + 1 + j]);
        }
        lemma_flat_prefix_bound(dims, indices, i + 1);
        lemma_flat_prefix_nonneg(dims, indices, i + 1);
        assert forall|k: int| 0 <= k <= tail.len() implies #[trigger] seq_prod(tail.take(k))
            <= usize::MAX by {
            lemma_seq_prod_take_le(tail, k);
        }
        lemma_flat_prefix_monotone(dims, indices, i + 1, dims.len() as int);
    }
}


pub proof fn lemma_seq_prod_small(a: usize, b: usize, c: usize)
    ensures
        seq_prod(Seq::<usize>::empty()) == 1,
        seq_prod(seq![a]) == a,
        seq_prod(seq![a, b]) == a * b,
        seq_prod(seq![a, b, c]) == a * b * c,
{
    let s1 = seq![a];
    let s2 = seq![a, b];
    let s3 = seq![a, b, c];
    assert(s1.drop_last() =~= Seq::<usize>::empty());
    assert(s1.last() == a);
    assert(seq_prod(s1) == seq_prod(s1.drop_last()) * a);
    assert(s2.drop_last() =~= s1);
    assert(s2.last() == b);
    assert(seq_prod(s2) == seq_prod(s1) * b);
    assert(s3.drop_last() =~= s2);
    assert(s3.last() == c);
    assert(seq_prod(s3) == seq_prod(s2) * c);
}


proof fn lemma_flat_prefix_front(dims: Seq<usize>, indices: Seq<usize>, m: int)
    requires
        1 <= m <= dims.len(),
        indices.len() == dims.len(),
    ensures
        flat_prefix(dims, indices, m) == indices[0] * seq_prod(dims.skip(1)) + flat_prefix(
            dims.drop_first(),
            indices.drop_first(),
            m - 1,
        ),
    decreases m,
{
    let rest = dims.drop_first();
    let ir = indices.drop_first();
    assert(rest.skip(m - 1) =~= dims.skip(m));
    assert(flat_prefix(dims, indices, m) == flat_prefix(dims, indices, m - 1) + indices[m - 1]
        * seq_prod(dims.skip(m)));
    if m > 1 {
        lemma_flat_prefix_front(dims, indices, m - 1);
        assert(ir[m - 2] == indices[m - 1]);
        assert(flat_prefix(rest, ir, m - 1) == flat_prefix(rest, ir, m - 2) + ir[m - 2] * seq_prod(
            rest.skip(m - 1),
        ));
    } else {
        assert(flat_prefix(dims, indices, 0) == 0);
        assert(flat_prefix(rest, ir, 0) == 0);
    }
}

/// Row-major order gives each element one multi-index: distinct valid
/// multi-indices address distinct offsets.
pub proof fn law_flat_index_injective(dims: Seq<usize>, a: Seq<usize>, b: Seq<usize>)
    requires
        valid_index(dims, a),
        valid_index(dims, b),
        flat_index(dims, a) == flat_index(dims, b),
    ensures
        a == b,
    decreases dims.len(),
{
    if dims.len() == 0 {
        assert(a =~= b);
    } else {
        let rest = dims.drop_first();
        let ar = a.drop_first();
        let br = b.drop_first();
        assert(valid_index(rest, ar)) by {
            assert forall|j: int| 0 <= j < rest.len() implies #[trigger] ar[j] < rest[j] by {
                assert(a[j + 1] < dims[j + 1]);
            }
        }
        assert(valid_index(rest, br)) by {
            assert forall|j: int| 0 <= j < rest.len() implies #[trigger] br[j] < rest[j] by {
                assert(b[j + 1] < dims[j + 1]);
            }
        }
        lemma_flat_prefix_front(dims, a, dims.len() as int);
        lemma_flat_prefix_front(dims, b, dims.len() as int);
        assert(rest =~= dims.skip(1));
        law_flat_index_in_bounds(rest, ar);
        law_flat_index_in_bounds(rest, br);
        let p = seq_prod(rest);
        let x = a[0] as int;
        let y = b[0] as int;
        let u = flat_index(rest, ar);
        let v = flat_index(rest, br);
        assert(x * p + u == y * p + v);
        assert(x == y) by (nonlinear_arith)
            requires
                x * p + u == y * p + v,
                0 <= u < p,
                0 <= v < p,
                0 <= x,
                0 <= y,
        ;
        law_flat_index_injective(rest, ar, br);
        assert(a =~= b) by {
            assert forall|j: int| 0 <= j < a.len() implies a[j] == b[j] by {
                if j > 0 {
                    assert(ar[j - 1] == br[j - 1]);
                }
            }
        }
    }
}


/// The product of a prefix of length `m + k` splits at `m`.
proof fn lemma_seq_prod_take_split(s: Seq<usize>, m: int, k: int)
    requires
        0 <= m,
        0 <= k,
        m + k <= s.len(),
    ensures
        seq_prod(s.take(m + k)) == seq_prod(s.take(m)) * seq_prod(s.skip(m).take(k)),
    decreases k,
{
    if k == 0 {
        assert(s.take(m + 0) =~= s.take(m));
        assert(s.skip(m).take(0) =~= Seq::<usize>::empty());
    } else {
        lemma_seq_prod_take_split(s, m, k - 1);
        assert(s.take(m + k).drop_last() =~= s.take(m + k - 1));
        assert(s.skip(m).take(k).drop_last() =~= s.skip(m).take(k - 1));
        assert(s.skip(m).take(k).last() == s.take(m + k).last());
        let a = seq_prod(s.take(m));
        let b = seq_prod(s.skip(m).take(k - 1));
        let c = s[m + k - 1] as int;
        assert(a * b * c == a * (b * c)) by (nonlinear_arith);
    }
}

/// When every running product of the dimensions fits in a `usize`, any
/// multi-index meets the lookup's precondition; `running_count` tells
/// whether that holds.
pub proof fn law_lookup_fits_when_counts_fit(dims: Seq<usize>, indices: Seq<usize>)
    requires
        running_prod_fits(dims),
    ensures
        lookup_fits(dims, indices),
{
    if indices.len() == dims.len() {
        assert forall|i: int|
            0 <= i < dims.len() && #[trigger] indices_in_range(dims, indices, i + 1) implies {
            &&& running_prod_fits(dims.skip(i + 1))
            &&& flat_prefix(dims, indices, i + 1) <= usize::MAX
        } by {
            let head = dims.take(i + 1);
            assert forall|j: int| 0 <= j < head.len() implies #[trigger] head[j] >= 1 by {
                assert(indices[j] < dims[j]);
            }
            lemma_seq_prod_take_le(head, i + 1);
            assert(head.take(i + 1) =~= head);
            let tail = dims.skip(i + 1);
            assert forall|k: int| 0 <= k <= tail.len() implies #[trigger] seq_prod(tail.take(k))
                <= usize::MAX by {
                lemma_seq_prod_take_split(dims, i + 1, k);
                lemma_seq_prod_nonneg(tail.take(k));
                assert(seq_prod(dims.take(i + 1 + k)) <= usize::MAX);
                let a = seq_prod(head);
                let b = seq_prod(tail.take(k));
                assert(b <= a * b) by (nonlinear_arith)
                    requires
                        a >= 1,
                        b >= 0,
                ;
            }
            lemma_flat_prefix_bound(dims, indices, i + 1);
            lemma_seq_prod_nonneg(dims.skip(i + 1));
            assert(dims.take(dims.len() as int) =~= dims);
            assert(seq_prod(dims.take(dims.len() as int)) <= usize::MAX);
        }
    }
}

} // verus!
