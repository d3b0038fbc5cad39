//! Row-major layout of a dense tensor: dimensions, strides and flat offsets.

use vstd::prelude::*;

verus! {

/// Number of elements held by a tensor whose dimensions are `dims`.
pub open spec fn dims_product(dims: Seq<usize>) -> nat
    decreases dims.len(),
{
    if dims.len() == 0 {
        1
    } else {
        (dims[0] as nat) * dims_product(dims.drop_first())
    }
}

/// Row-major stride of dimension `d`: the number of elements spanned by one step along it.
pub open spec fn row_major_stride(dims: Seq<usize>, d: int) -> nat {
    dims_product(dims.skip(d + 1))
}

/// `strides` are the row-major strides of `dims`.
pub open spec fn is_row_major(dims: Seq<usize>, strides: Seq<usize>) -> bool {
    &&& strides.len() == dims.len()
    &&& forall|d: int| 0 <= d < dims.len() ==> strides[d] == row_major_stride(dims, d)
}

/// Every dimension is at least one and the element count fits in a `usize`.
pub open spec fn valid_dims(dims: Seq<usize>) -> bool {
    &&& forall|d: int| 0 <= d < dims.len() ==> dims[d] >= 1
    &&& dims_product(dims) <= usize::MAX
}

/// `idx` names one element of a tensor with dimensions `dims`.
pub open spec fn index_in_bounds(dims: Seq<usize>, idx: Seq<usize>) -> bool {
    &&& idx.len() == dims.len()
    &&& forall|d: int| 0 <= d < dims.len() ==> idx[d] < dims[d]
}

/// Position of the element `idx` in row-major storage (mixed-radix value of `idx`).
pub open spec fn flat_index(dims: Seq<usize>, idx: Seq<usize>) -> int
    decreases idx.len(),
{
    if idx.len() == 0 || dims.len() == 0 {
        0
    } else {
        (idx[0] as int) * (dims_product(dims.drop_first()) as int) + flat_index(
            dims.drop_first(),
            idx.drop_first(),
        )
    }
}

/// Peeling dimension `d` off a suffix of the dimensions.
pub proof fn lemma_product_skip_step(dims: Seq<usize>, d: int)
    requires
        0 <= d < dims.len(),
    ensures
        dims_product(dims.skip(d)) == (dims[d] as nat) * dims_product(dims.skip(d + 1)),
{
    assert(dims.skip(d).drop_first() =~= dims.skip(d + 1));
}

/// With no zero dimension, a suffix never spans more elements than the whole.
pub proof fn lemma_product_skip_le(dims: Seq<usize>, d: int)
    requires
        0 <= d <= dims.len(),
        forall|e: int| 0 <= e < dims.len() ==> dims[e] >= 1,
    ensures
        1 <= dims_product(dims.skip(d)) <= dims_product(dims),
    decreases d,
{
    if d == 0 {
        assert(dims.skip(0) =~= dims);
        lemma_product_ge_one(dims);
    } else {
        lemma_product_skip_le(dims, d - 1);
        lemma_product_skip_step(dims, d - 1);
        lemma_product_ge_one(dims.skip(d));
        let p = dims_product(dims.skip(d));
        let x = dims[d - 1] as nat;
        assert(x * p >= p) by (nonlinear_arith)
            requires
                x >= 1,
        ;
    }
}

/// With no zero dimension, there is at least one element.
pub proof fn lemma_product_ge_one(dims: Seq<usize>)
    requires
        forall|e: int| 0 <= e < dims.len() ==> dims[e] >= 1,
    ensures
        dims_product(dims) >= 1,
    decreases dims.len(),
{
    if dims.len() > 0 {
        lemma_product_ge_one(dims.drop_first());
        let p = dims_product(dims.drop_first());
        let x = dims[0] as nat;
        assert(x * p >= 1) by (nonlinear_arith)
            requires
                x >= 1,
                p >= 1,
        ;
    }
}

/// The offset of an in-bounds index lies inside the storage.
pub proof fn lemma_flat_index_bound(dims: Seq<usize>, idx: Seq<usize>)
    requires
        index_in_bounds(dims, idx),
    ensures
        0 <= flat_index(dims, idx) < dims_product(dims),
    decreases idx.len(),
{
    if idx.len() > 0 {
        let rest_d = dims.drop_first();
        let rest_i = idx.drop_first();
        assert(index_in_bounds(rest_d, rest_i));
        lemma_flat_index_bound(rest_d, rest_i);
        let p = dims_product(rest_d) as int;
        let r = flat_index(rest_d, rest_i);
        let i0 = idx[0] as int;
        let d0 = dims[0] as int;
        assert(i0 * p + r < d0 * p) by (nonlinear_arith)
            requires
                0 <= i0 < d0,
                0 <= r < p,
        ;
        assert(i0 * p >= 0) by (nonlinear_arith)
            requires
                0 <= i0,
                0 <= p,
        ;
    }
}

/// Distinct in-bounds indices occupy distinct positions of the storage.
pub proof fn lemma_flat_index_injective(dims: Seq<usize>, a: Seq<usize>, b: Seq<usize>)
    requires
        index_in_bounds(dims, a),
        index_in_bounds(dims, b),
        flat_index(dims, a) == flat_index(dims, b),
    ensures
        a == b,
    decreases a.len(),
{
    if a.len() > 0 {
        let rest_d = dims.drop_first();
        assert(index_in_bounds(rest_d, a.drop_first()));
        assert(index_in_bounds(rest_d, b.drop_first()));
        lemma_flat_index_bound(rest_d, a.drop_first());
        lemma_flat_index_bound(rest_d, b.drop_first());
        let p = dims_product(rest_d) as int;
        let ra = flat_index(rest_d, a.drop_first());
        let rb = flat_index(rest_d, b.drop_first());
        let a0 = a[0] as int;
        let b0 = b[0] as int;
        if a0 < b0 {
            assert(a0 * p + ra < b0 * p + rb) by (nonlinear_arith)
                requires
                    a0 < b0,
                    0 <= ra < p,
                    0 <= rb,
            ;
        } else if b0 < a0 {
            assert(b0 * p + rb < a0 * p + ra) by (nonlinear_arith)
                requires
                    b0 < a0,
                    0 <= rb < p,
                    0 <= ra,
            ;
        } else {
            lemma_flat_index_injective(rest_d, a.drop_first(), b.drop_first());
            assert forall|i: int| 0 <= i < a.len() implies a[i] == b[i] by {
                if i > 0 {
                    assert(a[i] == a.drop_first()[i - 1]);
                    assert(b[i] == b.drop_first()[i - 1]);
                }
            }
            assert(a =~= b);
        }
    } else {
        assert(a =~= b);
    }
}

/// Unfolding the flat index one dimension at a time, starting at dimension `d`.
pub proof fn lemma_flat_index_skip_step(dims: Seq<usize>, idx: Seq<usize>, d: int)
    requires
        idx.len() == dims.len(),
        0 <= d < dims.len(),
    ensures
        flat_index(dims.skip(d), idx.skip(d)) == (idx[d] as int) * (row_major_stride(dims, d)
            as int) + flat_index(dims.skip(d + 1), idx.skip(d + 1)),
{
    assert(dims.skip(d).drop_first() =~= dims.skip(d + 1));
    assert(idx.skip(d).drop_first() =~= idx.skip(d + 1));
}


/// The element count of concatenated dimensions is the product of the two counts.
pub proof fn lemma_product_concat(a: Seq<usize>, b: Seq<usize>)
    ensures
        dims_product(a + b) == dims_product(a) * dims_product(b),
    decreases a.len(),
{
    if a.len() == 0 {
        assert(a + b =~= b);
        assert(dims_product(a) == 1);
    } else {
        assert((a + b).drop_first() =~= a.drop_first() + b);
        assert((a + b)[0] == a[0]);
        lemma_product_concat(a.drop_first(), b);
        let x = a[0] as nat;
        let p = dims_product(a.drop_first());
        let q = dims_product(b);
        assert(dims_product(a + b) == x * (p * q));
        assert(x * (p * q) == (x * p) * q) by (nonlinear_arith);
    }
}

/// Extending a prefix of the dimensions by one more dimension.
pub proof fn lemma_product_take_step(dims: Seq<usize>, d: int)
    requires
        0 <= d < dims.len(),
        forall|e: int| 0 <= e < dims.len() ==> dims[e] >= 1,
    ensures
        dims_product(dims.take(d + 1)) == dims_product(dims.take(d)) * (dims[d] as nat),
        dims_product(dims.take(d + 1)) <= dims_product(dims),
{
    let single = seq![dims[d]];
    assert(dims.take(d + 1) =~= dims.take(d) + single);
    lemma_product_concat(dims.take(d), single);
    assert(single.drop_first() =~= Seq::<usize>::empty());
    assert(dims_product(single.drop_first()) == 1);
    assert(dims_product(single) == (dims[d] as nat) * 1);
    assert(dims =~= dims.take(d + 1) + dims.skip(d + 1));
    lemma_product_concat(dims.take(d + 1), dims.skip(d + 1));
    lemma_product_ge_one(dims.skip(d + 1));
    let p = dims_product(dims.take(d + 1));
    let q = dims_product(dims.skip(d + 1));
    assert(p <= p * q) by (nonlinear_arith)
        requires
            q >= 1,
    ;
}


/// Row-major strides end in one, and each stride is the next one times the next dimension.
pub proof fn law_row_major_strides(dims: Seq<usize>, strides: Seq<usize>)
    requires
        is_row_major(dims, strides),
    ensures
        dims.len() > 0 ==> strides[dims.len() - 1] == 1,
        forall|d: int|
            0 <= d < dims.len() - 1 ==> #[trigger] strides[d] == strides[d + 1] * dims[d + 1],
{
    if dims.len() > 0 {
        assert(dims.skip(dims.len() as int) =~= Seq::<usize>::empty());
    }
    assert forall|d: int| 0 <= d < dims.len() - 1 implies #[trigger] strides[d] == strides[d + 1]
        * dims[d + 1] by {
        lemma_product_skip_step(dims, d + 1);
        let p = dims_product(dims.skip(d + 2));
        let x = dims[d + 1] as nat;
        assert(x * p == p * x) by (nonlinear_arith);
    }
}

/// The flat index over concatenated dimensions: the outer index counts whole inner blocks.
pub proof fn lemma_flat_index_concat(
    outer_dims: Seq<usize>,
    inner_dims: Seq<usize>,
    outer: Seq<usize>,
    inner: Seq<usize>,
)
    requires
        outer.len() == outer_dims.len(),
        inner.len() == inner_dims.len(),
    ensures
        flat_index(outer_dims + inner_dims, outer + inner) == flat_index(outer_dims, outer)
            * dims_product(inner_dims) + flat_index(inner_dims, inner),
    decreases outer.len(),
{
    if outer.len() == 0 {
        assert(outer_dims + inner_dims =~= inner_dims);
        assert(outer + inner =~= inner);
    } else {
        let od = outer_dims.drop_first();
        let oi = outer.drop_first();
        assert((outer_dims + inner_dims).drop_first() =~= od + inner_dims);
        assert((outer + inner).drop_first() =~= oi + inner);
        lemma_flat_index_concat(od, inner_dims, oi, inner);
        lemma_product_concat(od, inner_dims);
        let x = outer[0] as int;
        let p = dims_product(od) as int;
        let q = dims_product(inner_dims) as int;
        let f = flat_index(od, oi);
        assert(x * (p * q) + f * q == (x * p + f) * q) by (nonlinear_arith);
        assert((outer + inner)[0] == outer[0]);
    }
}

} // verus!
