//! Laws that relate the conversions between nested vectors, `NdArray` and
//! its lookup.

use vstd::prelude::*;
use crate::nested::{all_len, box_shaped, chunks, first_len, third_len, Vec2, Vec3};
use vstd::std_specs::convert::FromSpec;
use crate::shape::{flat_index, flat_prefix, law_lookup_well_formed, lemma_seq_prod_small, lookup_fits, seq_prod, valid_index};

verus! {

proof fn lemma_flatten_rect_len<A>(rows: Seq<Seq<A>>, c: nat)
    requires
        all_len(rows, c),
    ensures
        rows.flatten().len() == rows.len() * c,
    decreases rows.len(),
{
    if rows.len() > 0 {
        let rest = rows.drop_first();
        assert(all_len(rest, c)) by {
            assert forall|i: int| 0 <= i < rest.len() implies (#[trigger] rest[i]).len() == c by {
                assert(rest[i] == rows[i + 1]);
            }
        }
        lemma_flatten_rect_len(rest, c);
        assert(rows.len() * c == c + rest.len() * c) by (nonlinear_arith)
            requires
                rows.len() == rest.len() + 1,
        ;
    }
}

proof fn lemma_flatten_rect_index<A>(rows: Seq<Seq<A>>, c: nat, i: int, j: int)
    requires
        all_len(rows, c),
        0 <= i < rows.len(),
        0 <= j < c,
    ensures
        i * c + j < rows.flatten().len(),
        rows.flatten()[i * c + j] == rows[i][j],
    decreases rows.len(),
{
    lemma_flatten_rect_len(rows, c);
    let rest = rows.drop_first();
    assert(rows.flatten() == rows[0] + rest.flatten());
    if i > 0 {
        assert(all_len(rest, c)) by {
            assert forall|k: int| 0 <= k < rest.len() implies (#[trigger] rest[k]).len() == c by {
                assert(rest[k] == rows[k + 1]);
            }
        }
        lemma_flatten_rect_index(rest, c, i - 1, j);
        assert(i * c + j == c + ((i - 1) * c + j)) by (nonlinear_arith);
        assert(rest[i - 1] == rows[i]);
        assert(rows[0].len() == c);
        assert((rows[0] + rest.flatten())[c + ((i - 1) * c + j)] == rest.flatten()[(i - 1) * c
            + j]);
    } else {
        assert(rows[0].len() == c);
        assert(i * c + j == j) by (nonlinear_arith)
            requires
                i == 0,
        ;
        assert((rows[0] + rest.flatten())[j] == rows[0][j]);
    }
    assert(i * c + j < rows.len() * c) by (nonlinear_arith)
        requires
            i < rows.len(),
            j < c,
    ;
}

/// Cutting the concatenation of equally long rows gives the rows back.
proof fn lemma_chunks_of_flatten<A>(rows: Seq<Seq<A>>, c: nat)
    requires
        all_len(rows, c),
    ensures
        chunks(rows.flatten(), rows.len(), c) == rows,
{
    let flat = rows.flatten();
    lemma_flatten_rect_len(rows, c);
    let ch = chunks(flat, rows.len(), c);
    assert forall|i: int| 0 <= i < rows.len() implies #[trigger] ch[i] == rows[i] by {
        assert(i * c + c <= rows.len() * c) by (nonlinear_arith)
            requires
                i < rows.len(),
        ;
        assert(0 <= i * c) by (nonlinear_arith)
            requires
                0 <= i,
        ;
        assert(ch[i] == flat.subrange(i * c, i * c + c));
        assert forall|j: int| 0 <= j < c implies #[trigger] ch[i][j] == rows[i][j] by {
            lemma_flatten_rect_index(rows, c, i, j);
            assert(ch[i][j] == flat[i * c + j]);
        }
        assert(ch[i] =~= rows[i]);
    }
    assert(ch =~= rows);
}

/// Concatenating the pieces of `data` cut into `r` pieces of `c` gives `data`
/// back; the pieces all have `c` elements.
proof fn lemma_flatten_of_chunks<A>(data: Seq<A>, r: nat, c: nat)
    requires
        data.len() == r * c,
    ensures
        chunks(data, r, c).len() == r,
        all_len(chunks(data, r, c), c),
        chunks(data, r, c).flatten() == data,
{
    let ch = chunks(data, r, c);
    assert forall|i: int| 0 <= i < r implies (#[trigger] ch[i]).len() == c by {
        assert(0 <= i * c) by (nonlinear_arith)
            requires
                0 <= i,
        ;
        assert(i * c + c <= r * c) by (nonlinear_arith)
            requires
                i < r,
        ;
    }
    lemma_flatten_rect_len(ch, c);
    let flat = ch.flatten();
    assert forall|k: int| 0 <= k < data.len() implies #[trigger] flat[k] == data[k] by {
        let i = k / c as int;
        let j = k % c as int;
        assert(c > 0) by (nonlinear_arith)
            requires
                k < r * c,
                0 <= k,
        ;
        vstd::arithmetic::div_mod::lemma_fundamental_div_mod(k, c as int);
        vstd::arithmetic::div_mod::lemma_mod_bound(k, c as int);
        assert(0 <= i) by (nonlinear_arith)
            requires
                0 <= k,
                c > 0,
                i == k / c as int,
        ;
        assert(i < r) by (nonlinear_arith)
            requires
                k == c * i + j,
                0 <= j,
                k < r * c,
                c > 0,
        ;
        assert(k == i * c + j) by (nonlinear_arith)
            requires
                k == c * i + j,
        ;
        lemma_flatten_rect_index(ch, c, i, j);
        assert(0 <= i * c) by (nonlinear_arith)
            requires
                0 <= i,
        ;
        assert(i * c + c <= r * c) by (nonlinear_arith)
            requires
                i < r,
        ;
        assert(ch[i] == data.subrange(i * c, i * c + c));
        assert(ch[i][j] == data[i * c + j]);
    }
    assert(flat =~= data);
}

/// Converting equally long rows to an `NdArray` and back gives the rows again,
/// provided there is at least one element: the array has shape
/// `[rows, columns]` and the concatenated rows as data, and cutting that data
/// into rows restores them.
pub proof fn law_vec2_ndarray_roundtrip<T>(rows: Seq<Seq<T>>)
    requires
        all_len(rows, first_len(rows)),
        rows.len() <= usize::MAX,
        first_len(rows) <= usize::MAX,
        rows.flatten().len() > 0,
    ensures
        rows.flatten().len() == seq_prod(seq![rows.len() as usize, first_len(rows) as usize]),
        chunks(rows.flatten(), rows.len(), first_len(rows)) == rows,
{
    let dims = seq![rows.len() as usize, first_len(rows) as usize];
    lemma_flatten_rect_len(rows, first_len(rows));
    lemma_seq_prod_small(rows.len() as usize, first_len(rows) as usize, 0);
    lemma_chunks_of_flatten(rows, first_len(rows));
}

/// Converting a two-dimensional `NdArray` whose data matches its shape to rows
/// and back gives the same shape and data, provided there is at least one
/// element.
pub proof fn law_ndarray_vec2_roundtrip<T>(data: Seq<T>, d0: usize, d1: usize)
    requires
        data.len() == seq_prod(seq![d0, d1]),
        data.len() > 0,
    ensures
        ({
            let rows = chunks(data, d0 as nat, d1 as nat);
            &&& all_len(rows, first_len(rows))
            &&& rows.len() == d0
            &&& first_len(rows) == d1
            &&& rows.flatten() == data
        }),
{
    lemma_seq_prod_small(d0, d1, 0);
    assert(data.len() == d0 * d1);
    lemma_flatten_of_chunks(data, d0 as nat, d1 as nat);
    assert(d0 > 0) by (nonlinear_arith)
        requires
            data.len() == d0 * d1,
            data.len() > 0,
    ;
}

/// After converting equally long rows to an `NdArray`, looking up `[i, j]`
/// meets the lookup's precondition and finds row `i`, column `j`.
pub proof fn law_vec2_lookup<T>(rows: Seq<Seq<T>>, i: usize, j: usize)
    requires
        all_len(rows, first_len(rows)),
        rows.len() <= usize::MAX,
        first_len(rows) <= usize::MAX,
        rows.flatten().len() <= usize::MAX,
        i < rows.len(),
        j < first_len(rows),
    ensures
        ({
            let dims = seq![rows.len() as usize, first_len(rows) as usize];
            let indices = seq![i, j];
            &&& valid_index(dims, indices)
            &&& lookup_fits(dims, indices)
            &&& flat_index(dims, indices) < rows.flatten().len()
            &&& rows.flatten()[flat_index(dims, indices)] == rows[i as int][j as int]
        }),
{
    let c = first_len(rows);
    let dims = seq![rows.len() as usize, c as usize];
    let indices = seq![i, j];
    lemma_flatten_rect_len(rows, c);
    lemma_seq_prod_small(rows.len() as usize, c as usize, 0);
    lemma_seq_prod_small(c as usize, 0, 0);
    assert(dims.skip(1) =~= seq![c as usize]);
    assert(dims.skip(2) =~= Seq::<usize>::empty());
    assert(seq_prod(dims.skip(1)) == c);
    assert(flat_index(dims, indices) == i * c + j) by {
        assert(flat_prefix(dims, indices, 0) == 0);
        assert(flat_prefix(dims, indices, 1) == i * c);
        assert(seq_prod(dims.skip(2)) == 1);
        assert(flat_prefix(dims, indices, 2) == i * c + j * 1);
    }
    law_lookup_well_formed(dims, indices, rows.flatten().len());
    lemma_flatten_rect_index(rows, c, i as int, j as int);
}


proof fn lemma_flatten_all_len<A>(v: Seq<Seq<Seq<A>>>, b: nat, c: nat)
    requires
        box_shaped(v, b, c),
    ensures
        all_len(v.flatten(), c),
    decreases v.len(),
{
    if v.len() > 0 {
        let rest = v.drop_first();
        assert(box_shaped(rest, b, c)) by {
            assert forall|i: int| 0 <= i < rest.len() implies (#[trigger] rest[i]).len() == b by {
                assert(rest[i] == v[i + 1]);
            }
            assert forall|i: int| 0 <= i < rest.len() implies all_len(#[trigger] rest[i], c) by {
                assert(rest[i] == v[i + 1]);
            }
        }
        lemma_flatten_all_len(rest, b, c);
        assert(v.flatten() == v[0] + rest.flatten());
        assert(all_len(v[0], c));
        let f = v.flatten();
        assert forall|k: int| 0 <= k < f.len() implies (#[trigger] f[k]).len() == c by {
            if k < v[0].len() {
                assert(f[k] == v[0][k]);
            } else {
                assert(f[k] == rest.flatten()[k - v[0].len()]);
            }
        }
    }
}

/// Converting box-shaped planes to an `NdArray` and back gives the planes
/// again, provided no extent is zero: the array has shape
/// `[planes, rows, columns]` and the concatenated rows as data, and cutting
/// that data into rows and the rows into planes restores them.
pub proof fn law_vec3_ndarray_roundtrip<T>(v: Seq<Seq<Seq<T>>>)
    requires
        box_shaped(v, first_len(v), third_len(v)),
        v.len() > 0,
        first_len(v) > 0,
        third_len(v) > 0,
        v.len() <= usize::MAX,
        first_len(v) <= usize::MAX,
        third_len(v) <= usize::MAX,
    ensures
        v.flatten().flatten().len() == seq_prod(
            seq![v.len() as usize, first_len(v) as usize, third_len(v) as usize],
        ),
        chunks(
            chunks(v.flatten().flatten(), v.len() * first_len(v), third_len(v)),
            v.len(),
            first_len(v),
        ) == v,
{
    let a = v.len();
    let b = first_len(v);
    let c = third_len(v);
    lemma_flatten_all_len(v, b, c);
    lemma_flatten_rect_len(v, b);
    lemma_flatten_rect_len(v.flatten(), c);
    lemma_seq_prod_small(a as usize, b as usize, c as usize);
    lemma_chunks_of_flatten(v.flatten(), c);
    lemma_chunks_of_flatten(v, b);
}

/// Converting a three-dimensional `NdArray` whose data matches its shape to
/// planes and back gives the same shape and data, provided there is at least
/// one element.
pub proof fn law_ndarray_vec3_roundtrip<T>(data: Seq<T>, d0: usize, d1: usize, d2: usize)
    requires
        data.len() == seq_prod(seq![d0, d1, d2]),
        data.len() > 0,
    ensures
        ({
            let v = chunks(chunks(data, (d0 * d1) as nat, d2 as nat), d0 as nat, d1 as nat);
            &&& box_shaped(v, first_len(v), third_len(v))
            &&& v.len() == d0
            &&& first_len(v) == d1
            &&& third_len(v) == d2
            &&& v.flatten().flatten() == data
        }),
{
    lemma_seq_prod_small(d0, d1, d2);
    assert(d0 > 0 && d1 > 0 && d2 > 0) by (nonlinear_arith)
        requires
            data.len() == d0 * d1 * d2,
            data.len() > 0,
    ;
    let mid = chunks(data, (d0 * d1) as nat, d2 as nat);
    assert(data.len() == (d0 * d1) * d2);
    lemma_flatten_of_chunks(data, (d0 * d1) as nat, d2 as nat);
    lemma_flatten_of_chunks(mid, d0 as nat, d1 as nat);
    let v = chunks(mid, d0 as nat, d1 as nat);
    assert forall|i: int| 0 <= i < v.len() implies all_len(#[trigger] v[i], d2 as nat) by {
        assert(0 <= i * d1) by (nonlinear_arith)
            requires
                0 <= i,
        ;
        assert(i * d1 + d1 <= d0 * d1) by (nonlinear_arith)
            requires
                i < d0,
        ;
        assert forall|j: int| 0 <= j < v[i].len() implies (#[trigger] v[i][j]).len() == d2 by {
            assert(v[i][j] == mid[i * d1 + j]);
        }
    }
    assert(v[0].len() == d1);
    assert(v[0][0].len() == d2);
}

/// After converting box-shaped planes to an `NdArray`, looking up `[i, j, k]`
/// meets the lookup's precondition and finds plane `i`, row `j`, column `k`.
pub proof fn law_vec3_lookup<T>(v: Seq<Seq<Seq<T>>>, i: usize, j: usize, k: usize)
    requires
        box_shaped(v, first_len(v), third_len(v)),
        v.len() <= usize::MAX,
        first_len(v) <= usize::MAX,
        third_len(v) <= usize::MAX,
        v.flatten().flatten().len() <= usize::MAX,
        i < v.len(),
        j < first_len(v),
        k < third_len(v),
    ensures
        ({
            let dims = seq![v.len() as usize, first_len(v) as usize, third_len(v) as usize];
            let indices = seq![i, j, k];
            &&& valid_index(dims, indices)
            &&& lookup_fits(dims, indices)
            &&& flat_index(dims, indices) < v.flatten().flatten().len()
            &&& v.flatten().flatten()[flat_index(dims, indices)] == v[i as int][j as int][k as int]
        }),
{
    let a = v.len();
    let b = first_len(v);
    let c = third_len(v);
    let dims = seq![a as usize, b as usize, c as usize];
    let indices = seq![i, j, k];
    lemma_flatten_all_len(v, b, c);
    lemma_flatten_rect_len(v, b);
    lemma_flatten_rect_len(v.flatten(), c);
    lemma_seq_prod_small(a as usize, b as usize, c as usize);
    lemma_seq_prod_small(b as usize, c as usize, 0);
    lemma_seq_prod_small(c as usize, 0, 0);
    assert(dims.skip(1) =~= seq![b as usize, c as usize]);
    assert(dims.skip(2) =~= seq![c as usize]);
    assert(dims.skip(3) =~= Seq::<usize>::empty());
    assert(seq_prod(dims.skip(1)) == b * c);
    assert(seq_prod(dims.skip(2)) == c);
    assert(flat_index(dims, indices) == i * (b * c) + j * c + k) by {
        assert(flat_prefix(dims, indices, 0) == 0);
        assert(flat_prefix(dims, indices, 1) == i * (b * c));
        assert(flat_prefix(dims, indices, 2) == i * (b * c) + j * c);
        assert(seq_prod(dims.skip(3)) == 1);
        assert(flat_prefix(dims, indices, 3) == i * (b * c) + j * c + k * 1);
    }
    assert(i * (b * c) + j * c + k == (i * b + j) * c + k) by (nonlinear_arith);
    law_lookup_well_formed(dims, indices, v.flatten().flatten().len());
    lemma_flatten_rect_index(v, b, i as int, j as int);
    lemma_flatten_rect_index(v.flatten(), c, i * b + j, k as int);
}


/// Wrapping rows in `Vec2` and unwrapping them gives the rows back, and the
/// same for `Vec3`.
pub proof fn law_from_roundtrip<T>(rows: Vec<Vec<T>>, planes: Vec<Vec<Vec<T>>>)
    ensures
        <Vec<Vec<T>> as FromSpec<Vec2<T>>>::from_spec(
            <Vec2<T> as FromSpec<Vec<Vec<T>>>>::from_spec(rows),
        ) == rows,
        <Vec<Vec<Vec<T>>> as FromSpec<Vec3<T>>>::from_spec(
            <Vec3<T> as FromSpec<Vec<Vec<Vec<T>>>>>::from_spec(planes),
        ) == planes,
{
}

} // verus!
