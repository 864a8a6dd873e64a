//! Nested-vector wrappers for arrays of two to six dimensions, and their
//! conversions to and from `NdArray`.

use vstd::prelude::*;
use crate::ndarray::{element_count, NdArray};
use crate::shape::{lemma_seq_prod_nonneg, lemma_seq_prod_small, seq_prod};
use crate::text::{
    canonical_digits, digits_value, mul_digits, non_rectangular_error, non_rectangular_msg,
    shape_mismatch_error, shape_mismatch_from_digits, shape_mismatch_msg, usize_digits, wrong_dim_error, wrong_dim_msg,
};

verus! {

/// A two-dimensional array as a vector of rows.
#[derive(Debug, Clone, PartialEq, Eq, Hash, PartialOrd, Ord)]
pub struct Vec2<T>(pub Vec<Vec<T>>);

/// A three-dimensional array as nested vectors.
#[derive(Debug, Clone, PartialEq, Eq, Hash, PartialOrd, Ord)]
pub struct Vec3<T>(pub Vec<Vec<Vec<T>>>);

/// A four-dimensional array as nested vectors.
#[derive(Debug, Clone, PartialEq, Eq, Hash, PartialOrd, Ord)]
pub struct Vec4<T>(pub Vec<Vec<Vec<Vec<T>>>>);

/// A five-dimensional array as nested vectors.
#[derive(Debug, Clone, PartialEq, Eq, Hash, PartialOrd, Ord)]
pub struct Vec5<T>(pub Vec<Vec<Vec<Vec<Vec<T>>>>>);

/// A six-dimensional array as nested vectors.
#[derive(Debug, Clone, PartialEq, Eq, Hash, PartialOrd, Ord)]
pub struct Vec6<T>(pub Vec<Vec<Vec<Vec<Vec<Vec<T>>>>>>);

pub open spec fn rows_view<T>(v: Seq<Vec<T>>) -> Seq<Seq<T>> {
    v.map_values(|r: Vec<T>| r@)
}

pub open spec fn planes_view<T>(v: Seq<Vec<Vec<T>>>) -> Seq<Seq<Seq<T>>> {
    v.map_values(|p: Vec<Vec<T>>| rows_view(p@))
}

pub open spec fn cubes_view<T>(v: Seq<Vec<Vec<Vec<T>>>>) -> Seq<Seq<Seq<Seq<T>>>> {
    v.map_values(|c: Vec<Vec<Vec<T>>>| planes_view(c@))
}

pub open spec fn tesseracts_view<T>(v: Seq<Vec<Vec<Vec<Vec<T>>>>>) -> Seq<Seq<Seq<Seq<Seq<T>>>>> {
    v.map_values(|c: Vec<Vec<Vec<Vec<T>>>>| cubes_view(c@))
}

impl<T> View for Vec2<T> {
    type V = Seq<Seq<T>>;

    open spec fn view(&self) -> Seq<Seq<T>> {
        rows_view(self.0@)
    }
}

impl<T> View for Vec3<T> {
    type V = Seq<Seq<Seq<T>>>;

    open spec fn view(&self) -> Seq<Seq<Seq<T>>> {
        planes_view(self.0@)
    }
}

impl<T> View for Vec4<T> {
    type V = Seq<Seq<Seq<Seq<T>>>>;

    open spec fn view(&self) -> Seq<Seq<Seq<Seq<T>>>> {
        cubes_view(self.0@)
    }
}

impl<T> View for Vec5<T> {
    type V = Seq<Seq<Seq<Seq<Seq<T>>>>>;

    open spec fn view(&self) -> Seq<Seq<Seq<Seq<Seq<T>>>>> {
        tesseracts_view(self.0@)
    }
}

impl<T> View for Vec6<T> {
    type V = Seq<Seq<Seq<Seq<Seq<Seq<T>>>>>>;

    open spec fn view(&self) -> Seq<Seq<Seq<Seq<Seq<Seq<T>>>>>> {
        self.0@.map_values(|c: Vec<Vec<Vec<Vec<Vec<T>>>>>| tesseracts_view(c@))
    }
}

/// `s` cut into `n` consecutive pieces of `size` elements.
pub open spec fn chunks<A>(s: Seq<A>, n: nat, size: nat) -> Seq<Seq<A>> {
    Seq::new(n, |i: int| s.subrange(i * size, i * size + size))
}

proof fn lemma_chunk_bounds(k: int, n: int, size: int)
    requires
        0 < k <= n,
        0 <= size,
    ensures
        (k - 1) * size + size == k * size,
        0 <= (k - 1) * size,
        k * size <= n * size,
{
    assert((k - 1) * size + size == k * size) by (nonlinear_arith);
    assert(0 <= (k - 1) * size) by (nonlinear_arith)
        requires
            0 < k,
            0 <= size,
    ;
    assert(k * size <= n * size) by (nonlinear_arith)
        requires
            k <= n,
            0 <= size,
    ;
}

/// Cuts `data` into `n` consecutive vectors of `size` elements.
fn chunk_vec<A>(data: Vec<A>, n: usize, size: usize) -> (r: Vec<Vec<A>>)
    requires
        data@.len() == n * size,
    ensures
        r@.len() == n,
        forall|i: int| 0 <= i < n ==> (#[trigger] r@[i])@ == data@.subrange(i * size, i * size + size),
{
    let ghost all = data@;
    let total = data.len();
    assert(total == n * size);
    let mut rest = data;
    let mut rev: Vec<Vec<A>> = Vec::new();
    let mut k: usize = n;
    assert(rest@ =~= all.subrange(0, n * size));
    while k > 0
        invariant
            k <= n,
            all.len() == n * size,
            n * size <= usize::MAX,
            rest@ == all.subrange(0, k * size),
            rev@.len() == n - k,
            forall|j: int|
                0 <= j < n - k ==> (#[trigger] rev@[j])@ == all.subrange(
                    (n - 1 - j) * size,
                    (n - 1 - j) * size + size,
                ),
        decreases k,
    {
        proof {
            lemma_chunk_bounds(k as int, n as int, size as int);
        }
        let at: usize = (k - 1) * size;
        let piece = rest.split_off(at);
        assert(piece@ =~= all.subrange((k - 1) * size, (k - 1) * size + size));
        assert(rest@ =~= all.subrange(0, (k - 1) * size));
        rev.push(piece);
        k = k - 1;
    }
    let mut out: Vec<Vec<A>> = Vec::new();
    while rev.len() > 0
        invariant
            rev@.len() + out@.len() == n,
            forall|j: int|
                0 <= j < rev@.len() ==> (#[trigger] rev@[j])@ == all.subrange(
                    (n - 1 - j) * size,
                    (n - 1 - j) * size + size,
                ),
            forall|i: int|
                0 <= i < out@.len() ==> (#[trigger] out@[i])@ == all.subrange(
                    i * size,
                    i * size + size,
                ),
        decreases rev@.len(),
    {
        let ghost i = out@.len() as int;
        let piece = rev.pop().unwrap();
        assert(n - 1 - rev@.len() == i);
        out.push(piece);
    }
    out
}

/// The conversion is described by the `ensures` of `try_from`, over views,
/// rather than by an equation on values.
impl<T> vstd::std_specs::convert::TryFromSpecImpl<NdArray<T>> for Vec2<T> {
    open spec fn obeys_try_from_spec() -> bool {
        false
    }

    open spec fn try_from_spec(nd: NdArray<T>) -> Result<Self, Self::Error> {
        arbitrary()
    }
}

impl<T> TryFrom<NdArray<T>> for Vec2<T> {
    type Error = String;

    /// Nests two-dimensional data into rows. The shape must have two
    /// dimensions and its element count must equal the length of the data;
    /// without elements the result has no rows.
    fn try_from(nd: NdArray<T>) -> (r: Result<Self, Self::Error>)
        ensures
            r is Ok <==> nd.dims@.len() == 2 && nd.data@.len() == seq_prod(nd.dims@),
            r matches Ok(v) ==> v@ == (if nd.data@.len() == 0 {
                Seq::<Seq<T>>::empty()
            } else {
                chunks(nd.data@, nd.dims@[0] as nat, nd.dims@[1] as nat)
            }),
            r matches Err(e) ==> e@ == (if nd.dims@.len() != 2 {
                wrong_dim_msg(2, nd.dims@.len())
            } else {
                shape_mismatch_msg(seq_prod(nd.dims@) as nat, nd.data@.len())
            }),
    {
        if nd.dims.len() != 2 {
            return Err(wrong_dim_error(2, nd.dims.len()));
        }
        proof {
            lemma_seq_prod_nonneg(nd.dims@);
        }
        let expected_len = match element_count(&nd.dims) {
            Some(c) => c,
            None => {
                let d = count_digits(&nd.dims);
                return Err(shape_mismatch_from_digits(&d, nd.data.len()));
            },
        };
        if nd.data.len() != expected_len {
            return Err(shape_mismatch_error(expected_len, nd.data.len()));
        }
        if expected_len == 0 {
            let v = Vec2(Vec::new());
            assert(v@ =~= Seq::<Seq<T>>::empty());
            return Ok(v);
        }
        let d1_len = nd.dims[0];
        let d2_len = nd.dims[1];
        proof {
            lemma_seq_prod_small(d1_len, d2_len, 0);
            assert(nd.dims@ =~= seq![d1_len, d2_len]);
        }
        let ghost data = nd.data@;
        let rows = chunk_vec(nd.data, d1_len, d2_len);
        let v = Vec2(rows);
        assert(v@ =~= chunks(data, d1_len as nat, d2_len as nat));
        Ok(v)
    }
}

/// Little-endian decimal digits of the element count of `dims`.
fn count_digits(dims: &Vec<usize>) -> (d: Vec<u8>)
    ensures
        canonical_digits(d@),
        digits_value(d@) == seq_prod(dims@),
{
    let mut d = usize_digits(1);
    let mut k: usize = 0;
    assert(dims@.take(0) =~= Seq::<usize>::empty());
    while k < dims.len()
        invariant
            k <= dims@.len(),
            canonical_digits(d@),
            digits_value(d@) == seq_prod(dims@.take(k as int)),
        decreases dims@.len() - k,
    {
        assert(dims@.take(k + 1).drop_last() =~= dims@.take(k as int));
        d = mul_digits(&d, dims[k]);
        k = k + 1;
    }
    assert(dims@.take(dims@.len() as int) =~= dims@);
    d
}


/// Concatenates the vectors of `rows`, in order.
fn flatten_vec<A>(rows: Vec<Vec<A>>) -> (r: Vec<A>)
    ensures
        r@ == rows_view(rows@).flatten(),
{
    let ghost orig = rows_view(rows@);
    let mut rows = rows;
    let mut rev: Vec<Vec<A>> = Vec::new();
    while rows.len() > 0
        invariant
            orig.len() == rev@.len() + rows@.len(),
            forall|j: int| 0 <= j < rows@.len() ==> (#[trigger] rows@[j])@ == orig[j],
            forall|j: int| 0 <= j < rev@.len() ==> (#[trigger] rev@[j])@ == orig[orig.len() - 1 - j],
        decreases rows@.len(),
    {
        let row = rows.pop().unwrap();
        rev.push(row);
    }
    let mut data: Vec<A> = Vec::new();
    assert(orig.take(0) =~= Seq::<Seq<A>>::empty());
    assert(data@ =~= orig.take(0).flatten());
    while rev.len() > 0
        invariant
            rev@.len() <= orig.len(),
            forall|j: int| 0 <= j < rev@.len() ==> (#[trigger] rev@[j])@ == orig[orig.len() - 1 - j],
            data@ == orig.take(orig.len() - rev@.len()).flatten(),
        decreases rev@.len(),
    {
        let ghost k = orig.len() - rev@.len();
        let mut row = rev.pop().unwrap();
        proof {
            orig.take(k).lemma_flatten_push(orig[k]);
            assert(orig.take(k).push(orig[k]) =~= orig.take(k + 1));
        }
        data.append(&mut row);
    }
    assert(orig.take(orig.len() as int) =~= orig);
    data
}

/// Length of the first sequence, or 0 when there is none.
pub open spec fn first_len<A>(s: Seq<Seq<A>>) -> nat {
    if s.len() == 0 {
        0
    } else {
        s[0].len()
    }
}

/// Every sequence of `s` has length `n`.
pub open spec fn all_len<A>(s: Seq<Seq<A>>, n: nat) -> bool {
    forall|i: int| 0 <= i < s.len() ==> (#[trigger] s[i]).len() == n
}

/// The extent of the third dimension: the length of the first row of the
/// first plane, or 0.
pub open spec fn third_len<A>(s: Seq<Seq<Seq<A>>>) -> nat {
    if s.len() == 0 {
        0
    } else {
        first_len(s[0])
    }
}

/// Every plane has `rows` rows and every row has `cols` elements.
pub open spec fn box_shaped<A>(s: Seq<Seq<Seq<A>>>, rows: nat, cols: nat) -> bool {
    &&& all_len(s, rows)
    &&& forall|i: int| 0 <= i < s.len() ==> all_len(#[trigger] s[i], cols)
}

/// The conversion is described by the `ensures` of `try_from`, over views,
/// rather than by an equation on values.
impl<T> vstd::std_specs::convert::TryFromSpecImpl<Vec2<T>> for NdArray<T> {
    open spec fn obeys_try_from_spec() -> bool {
        false
    }

    open spec fn try_from_spec(v: Vec2<T>) -> Result<Self, Self::Error> {
        arbitrary()
    }
}

impl<T> TryFrom<Vec2<T>> for NdArray<T> {
    type Error = String;

    /// Flattens rows into a two-dimensional array. All rows must have the
    /// length of the first.
    fn try_from(v: Vec2<T>) -> (r: Result<Self, Self::Error>)
        ensures
            r is Ok <==> all_len(v@, first_len(v@)),
            r matches Ok(nd) ==> nd.dims@ == seq![v@.len() as usize, first_len(v@) as usize]
                && nd.data@ == v@.flatten(),
            r matches Err(e) ==> e@ == non_rectangular_msg(),
    {
        let num_rows = v.0.len();
        let num_cols = if num_rows == 0 {
            0
        } else {
            assert(v@[0] == v.0@[0]@);
            v.0[0].len()
        };
        let mut i: usize = 0;
        while i < num_rows
            invariant
                num_rows == v@.len(),
                num_cols == first_len(v@),
                i <= num_rows,
                forall|j: int| 0 <= j < i ==> (#[trigger] v@[j]).len() == num_cols,
            decreases num_rows - i,
        {
            assert(v@[i as int] == v.0@[i as int]@);
            if v.0[i].len() != num_cols {
                assert(!all_len(v@, first_len(v@)));
                return Err(non_rectangular_error());
            }
            i = i + 1;
        }
        let data = flatten_vec(v.0);
        let mut dims: Vec<usize> = Vec::new();
        dims.push(num_rows);
        dims.push(num_cols);
        assert(dims@ =~= seq![num_rows, num_cols]);
        Ok(NdArray { dims, data })
    }
}


proof fn lemma_rows_view_flatten<T>(s: Seq<Seq<Vec<T>>>)
    ensures
        rows_view(s.flatten()) == s.map_values(|p: Seq<Vec<T>>| rows_view(p)).flatten(),
    decreases s.len(),
{
    let f = |p: Seq<Vec<T>>| rows_view(p);
    if s.len() == 0 {
        assert(rows_view(s.flatten()) =~= Seq::<Seq<T>>::empty());
        assert(s.map_values(f) =~= Seq::<Seq<Seq<T>>>::empty());
    } else {
        let init = s.drop_last();
        lemma_rows_view_flatten(init);
        assert(s =~= init.push(s.last()));
        init.lemma_flatten_push(s.last());
        assert(s.map_values(f) =~= init.map_values(f).push(rows_view(s.last())));
        init.map_values(f).lemma_flatten_push(rows_view(s.last()));
        assert(rows_view(init.flatten() + s.last()) =~= rows_view(init.flatten()) + rows_view(
            s.last(),
        ));
    }
}

/// The conversion is described by the `ensures` of `try_from`, over views,
/// rather than by an equation on values.
impl<T> vstd::std_specs::convert::TryFromSpecImpl<NdArray<T>> for Vec3<T> {
    open spec fn obeys_try_from_spec() -> bool {
        false
    }

    open spec fn try_from_spec(nd: NdArray<T>) -> Result<Self, Self::Error> {
        arbitrary()
    }
}

impl<T> TryFrom<NdArray<T>> for Vec3<T> {
    type Error = String;

    /// Nests three-dimensional data into planes of rows. The shape must have
    /// three dimensions and its element count must equal the length of the
    /// data; without elements the result has no planes.
    fn try_from(nd: NdArray<T>) -> (r: Result<Self, Self::Error>)
        ensures
            r is Ok <==> nd.dims@.len() == 3 && nd.data@.len() == seq_prod(nd.dims@),
            r matches Ok(v) ==> v@ == (if nd.data@.len() == 0 {
                Seq::<Seq<Seq<T>>>::empty()
            } else {
                chunks(
                    chunks(nd.data@, (nd.dims@[0] * nd.dims@[1]) as nat, nd.dims@[2] as nat),
                    nd.dims@[0] as nat,
                    nd.dims@[1] as nat,
                )
            }),
            r matches Err(e) ==> e@ == (if nd.dims@.len() != 3 {
                wrong_dim_msg(3, nd.dims@.len())
            } else {
                shape_mismatch_msg(seq_prod(nd.dims@) as nat, nd.data@.len())
            }),
    {
        let ndims: usize = 3;
        if nd.dims.len() != ndims {
            return Err(wrong_dim_error(ndims, nd.dims.len()));
        }
        proof {
            lemma_seq_prod_nonneg(nd.dims@);
        }
        let expected_len = match element_count(&nd.dims) {
            Some(c) => c,
            None => {
                let d = count_digits(&nd.dims);
                return Err(shape_mismatch_from_digits(&d, nd.data.len()));
            },
        };
        if nd.data.len() != expected_len {
            return Err(shape_mismatch_error(expected_len, nd.data.len()));
        }
        if expected_len == 0 {
            let v = Vec3(Vec::new());
            assert(v@ =~= Seq::<Seq<Seq<T>>>::empty());
            return Ok(v);
        }
        let d1_len = nd.dims[0];
        let d2_len = nd.dims[1];
        let d3_len = nd.dims[2];
        proof {
            lemma_seq_prod_small(d1_len, d2_len, d3_len);
            assert(nd.dims@ =~= seq![d1_len, d2_len, d3_len]);
            assert(expected_len == d1_len * d2_len * d3_len);
            assert(d1_len * d2_len <= expected_len) by (nonlinear_arith)
                requires
                    expected_len == d1_len * d2_len * d3_len,
                    expected_len > 0,
            ;
        }
        let num_rows: usize = d1_len * d2_len;
        let ghost data = nd.data@;
        let rows = chunk_vec(nd.data, num_rows, d3_len);
        let ghost mid = rows@;
        let planes = chunk_vec(rows, d1_len, d2_len);
        let v = Vec3(planes);
        proof {
            let flat_rows = chunks(data, num_rows as nat, d3_len as nat);
            assert(rows_view(mid) =~= flat_rows);
            let expect = chunks(flat_rows, d1_len as nat, d2_len as nat);
            assert forall|i: int| 0 <= i < d1_len implies #[trigger] v@[i] == expect[i] by {
                let lo = i * d2_len;
                lemma_chunk_bounds(i + 1, d1_len as int, d2_len as int);
                assert(v@[i] == rows_view(mid.subrange(lo, lo + d2_len)));
                assert(rows_view(mid.subrange(lo, lo + d2_len)) =~= flat_rows.subrange(lo, lo + d2_len));
            }
            assert(v@ =~= expect);
        }
        Ok(v)
    }
}

proof fn lemma_product_zero(a: int, b: int, c: int)
    requires
        a >= 0,
        b >= 0,
        c >= 0,
    ensures
        (a * b * c == 0) <==> (a == 0 || b == 0 || c == 0),
{
    if a > 0 && b > 0 && c > 0 {
        assert(a * b * c > 0) by (nonlinear_arith)
            requires
                a > 0,
                b > 0,
                c > 0,
        ;
    } else {
        assert(a * b * c == 0) by (nonlinear_arith)
            requires
                a == 0 || b == 0 || c == 0,
        ;
    }
}

/// The conversion is described by the `ensures` of `try_from`, over views,
/// rather than by an equation on values.
impl<T> vstd::std_specs::convert::TryFromSpecImpl<Vec3<T>> for NdArray<T> {
    open spec fn obeys_try_from_spec() -> bool {
        false
    }

    open spec fn try_from_spec(v: Vec3<T>) -> Result<Self, Self::Error> {
        arbitrary()
    }
}

impl<T> TryFrom<Vec3<T>> for NdArray<T> {
    type Error = String;

    /// Flattens planes of rows into a three-dimensional array. The extents are
    /// taken from the number of planes, the first plane and its first row.
    /// When their product is zero the array has those extents and no
    /// elements, and the other planes are not looked at; otherwise every plane
    /// and every row must have those extents, else the nested vectors are
    /// refused as non-rectangular.
    fn try_from(v: Vec3<T>) -> (r: Result<Self, Self::Error>)
        ensures
            r is Ok <==> (v@.len() * first_len(v@) * third_len(v@) == 0 || box_shaped(
                v@,
                first_len(v@),
                third_len(v@),
            )),
            r matches Ok(nd) ==> nd.dims@ == seq![
                v@.len() as usize,
                first_len(v@) as usize,
                third_len(v@) as usize,
            ] && nd.data@ == (if v@.len() * first_len(v@) * third_len(v@) == 0 {
                Seq::<T>::empty()
            } else {
                v@.flatten().flatten()
            }),
            r matches Err(e) ==> e@ == non_rectangular_msg(),
    {
        let d1_len = v.0.len();
        let d2_len = if d1_len == 0 {
            0
        } else {
            assert(v@[0] == rows_view(v.0@[0]@));
            v.0[0].len()
        };
        let d3_len = if d1_len == 0 {
            0
        } else if v.0[0].len() == 0 {
            0
        } else {
            assert(v@[0][0] == v.0@[0]@[0]@);
            v.0[0][0].len()
        };
        let mut dims: Vec<usize> = Vec::new();
        dims.push(d1_len);
        dims.push(d2_len);
        dims.push(d3_len);
        assert(dims@ =~= seq![d1_len, d2_len, d3_len]);
        proof {
            lemma_product_zero(d1_len as int, d2_len as int, d3_len as int);
        }
        if d1_len == 0 || d2_len == 0 || d3_len == 0 {
            return Ok(NdArray { dims, data: Vec::new() });
        }
        let mut i: usize = 0;
        while i < d1_len
            invariant
                d1_len == v@.len(),
                d2_len == first_len(v@),
                d3_len == third_len(v@),
                d2_len > 0,
                d3_len > 0,
                v@.len() * first_len(v@) * third_len(v@) != 0,
                i <= d1_len,
                forall|j: int| 0 <= j < i ==> (#[trigger] v@[j]).len() == d2_len,
            decreases d1_len - i,
        {
            assert(v@[i as int] == rows_view(v.0@[i as int]@));
            if v.0[i].len() != d2_len {
                assert(!all_len(v@, first_len(v@)));
                return Err(non_rectangular_error());
            }
            i = i + 1;
        }
        let mut i: usize = 0;
        while i < d1_len
            invariant
                d1_len == v@.len(),
                d2_len == first_len(v@),
                d3_len == third_len(v@),
                d2_len > 0,
                d3_len > 0,
                v@.len() * first_len(v@) * third_len(v@) != 0,
                all_len(v@, d2_len as nat),
                i <= d1_len,
                forall|j: int| 0 <= j < i ==> all_len(#[trigger] v@[j], d3_len as nat),
            decreases d1_len - i,
        {
            let mut k: usize = 0;
            assert(v@[i as int] == rows_view(v.0@[i as int]@));
            assert(v@[i as int].len() == d2_len);
            while k < d2_len
                invariant
                    d1_len == v@.len(),
                    d2_len == first_len(v@),
                    d3_len == third_len(v@),
                    d2_len > 0,
                    d3_len > 0,
                    v@.len() * first_len(v@) * third_len(v@) != 0,
                    i < d1_len,
                    v@[i as int] == rows_view(v.0@[i as int]@),
                    v@[i as int].len() == d2_len,
                    k <= d2_len,
                    forall|m: int| 0 <= m < k ==> (#[trigger] v@[i as int][m]).len() == d3_len,
                decreases d2_len - k,
            {
                assert(v@[i as int][k as int] == v.0@[i as int]@[k as int]@);
                if v.0[i][k].len() != d3_len {
                    assert(!all_len(v@[i as int], d3_len as nat));
                    return Err(non_rectangular_error());
                }
                k = k + 1;
            }
            i = i + 1;
        }
        let ghost outer = v.0@;
        let rows = flatten_vec(v.0);
        let data = flatten_vec(rows);
        proof {
            lemma_rows_view_flatten(rows_view(outer));
            assert(rows_view(outer).map_values(|p: Seq<Vec<T>>| rows_view(p)) =~= v@);
        }
        Ok(NdArray { dims, data })
    }
}


impl<T> vstd::std_specs::convert::FromSpecImpl<Vec<Vec<T>>> for Vec2<T> {
    open spec fn obeys_from_spec() -> bool {
        true
    }

    open spec fn from_spec(v: Vec<Vec<T>>) -> Self {
        Vec2(v)
    }
}

impl<T> From<Vec<Vec<T>>> for Vec2<T> {
    /// Wraps rows.
    fn from(v: Vec<Vec<T>>) -> (r: Self)
        ensures
            r.0 == v,
    {
        Vec2(v)
    }
}

impl<T> vstd::std_specs::convert::FromSpecImpl<Vec2<T>> for Vec<Vec<T>> {
    open spec fn obeys_from_spec() -> bool {
        true
    }

    open spec fn from_spec(v: Vec2<T>) -> Self {
        v.0
    }
}

impl<T> From<Vec2<T>> for Vec<Vec<T>> {
    /// Unwraps the rows.
    fn from(v: Vec2<T>) -> (r: Self)
        ensures
            r == v.0,
    {
        v.0
    }
}

impl<T> vstd::std_specs::convert::FromSpecImpl<Vec<Vec<Vec<T>>>> for Vec3<T> {
    open spec fn obeys_from_spec() -> bool {
        true
    }

    open spec fn from_spec(v: Vec<Vec<Vec<T>>>) -> Self {
        Vec3(v)
    }
}

impl<T> From<Vec<Vec<Vec<T>>>> for Vec3<T> {
    /// Wraps planes of rows.
    fn from(v: Vec<Vec<Vec<T>>>) -> (r: Self)
        ensures
            r.0 == v,
    {
        Vec3(v)
    }
}

impl<T> vstd::std_specs::convert::FromSpecImpl<Vec3<T>> for Vec<Vec<Vec<T>>> {
    open spec fn obeys_from_spec() -> bool {
        true
    }

    open spec fn from_spec(v: Vec3<T>) -> Self {
        v.0
    }
}

impl<T> From<Vec3<T>> for Vec<Vec<Vec<T>>> {
    /// Unwraps the planes.
    fn from(v: Vec3<T>) -> (r: Self)
        ensures
            r == v.0,
    {
        v.0
    }
}

} // verus!
