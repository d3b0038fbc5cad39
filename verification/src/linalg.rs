//! Mathematical model of batched matrix multiplication over row-major storage.

use vstd::prelude::*;
use vstd::std_specs::ops::{AddSpec, MulSpec};
use crate::shape::{
    dims_product, flat_index, index_in_bounds, lemma_flat_index_bound, lemma_flat_index_concat,
    lemma_product_concat, valid_dims,
};

verus! {

/// `a[a_start + p] * b[b_start + p * b_step]` summed for `p` in `0..len`, added one term at a
/// time onto `z`, as the operators of `T` define it.
pub open spec fn dot<T: core::ops::Add<Output = T> + core::ops::Mul<Output = T>>(
    z: T,
    a: Seq<T>,
    b: Seq<T>,
    a_start: int,
    b_start: int,
    b_step: int,
    len: nat,
) -> T
    decreases len,
{
    if len == 0 {
        z
    } else {
        let prev = dot(z, a, b, a_start, b_start, b_step, (len - 1) as nat);
        let p = len - 1;
        prev.add_spec(a[a_start + p].mul_spec(b[b_start + p * b_step]))
    }
}

/// Every product and every addition in `dot` is one that `T`'s operators accept.
pub open spec fn dot_defined<T: core::ops::Add<Output = T> + core::ops::Mul<Output = T>>(
    z: T,
    a: Seq<T>,
    b: Seq<T>,
    a_start: int,
    b_start: int,
    b_step: int,
    len: nat,
) -> bool
    decreases len,
{
    if len == 0 {
        true
    } else {
        let p = len - 1;
        let x = a[a_start + p];
        let y = b[b_start + p * b_step];
        &&& dot_defined(z, a, b, a_start, b_start, b_step, (len - 1) as nat)
        &&& x.mul_req(y)
        &&& dot(z, a, b, a_start, b_start, b_step, (len - 1) as nat).add_req(x.mul_spec(y))
    }
}

/// The leading (batch) dimensions of a tensor of rank at least two.
pub open spec fn batch_dims(dims: Seq<usize>) -> Seq<usize> {
    dims.take(dims.len() - 2)
}

/// Number of matrices in a batch.
pub open spec fn batch_count(dims: Seq<usize>) -> nat {
    dims_product(batch_dims(dims))
}

/// Rows of each matrix.
pub open spec fn rows(dims: Seq<usize>) -> nat {
    dims[dims.len() - 2] as nat
}

/// Columns of each matrix.
pub open spec fn cols(dims: Seq<usize>) -> nat {
    dims[dims.len() - 1] as nat
}

/// `a_dims` and `b_dims` describe batches of matrices that can be multiplied pairwise.
pub open spec fn matmul_compatible(a_dims: Seq<usize>, b_dims: Seq<usize>) -> bool {
    &&& a_dims.len() >= 2
    &&& b_dims.len() == a_dims.len()
    &&& batch_dims(a_dims) == batch_dims(b_dims)
    &&& cols(a_dims) == rows(b_dims)
}

/// Dimensions of the product: those of `a` with the last one replaced by that of `b`.
pub open spec fn matmul_dims(a_dims: Seq<usize>, b_dims: Seq<usize>) -> Seq<usize> {
    a_dims.update(a_dims.len() - 1, b_dims[b_dims.len() - 1])
}

/// Storage position of entry `(i, j)` of matrix `batch` in a batch of `m`-by-`n` matrices.
pub open spec fn matrix_offset(batch: int, i: int, j: int, m: int, n: int) -> int {
    batch * m * n + i * n + j
}

/// Entry `(i, j)` of matrix `batch` of the product of `a` and `b`, accumulated onto `z`.
pub open spec fn matmul_entry<T: core::ops::Add<Output = T> + core::ops::Mul<Output = T>>(
    z: T,
    a: Seq<T>,
    b: Seq<T>,
    a_dims: Seq<usize>,
    b_dims: Seq<usize>,
    batch: int,
    i: int,
    j: int,
) -> T {
    let m = rows(a_dims) as int;
    let k = cols(a_dims) as int;
    let n = cols(b_dims) as int;
    dot(z, a, b, matrix_offset(batch, i, 0, m, k), matrix_offset(batch, 0, j, k, n), n, k as nat)
}

/// The operators of `T` accept every step of `matmul_entry`.
pub open spec fn matmul_entry_defined<
    T: core::ops::Add<Output = T> + core::ops::Mul<Output = T>,
>(
    z: T,
    a: Seq<T>,
    b: Seq<T>,
    a_dims: Seq<usize>,
    b_dims: Seq<usize>,
    batch: int,
    i: int,
    j: int,
) -> bool {
    let m = rows(a_dims) as int;
    let k = cols(a_dims) as int;
    let n = cols(b_dims) as int;
    dot_defined(
        z,
        a,
        b,
        matrix_offset(batch, i, 0, m, k),
        matrix_offset(batch, 0, j, k, n),
        n,
        k as nat,
    )
}

/// `(batch, i, j)` is an entry of the product of `a_dims` by `b_dims`.
pub open spec fn is_product_entry(
    a_dims: Seq<usize>,
    b_dims: Seq<usize>,
    batch: int,
    i: int,
    j: int,
) -> bool {
    &&& 0 <= batch < batch_count(a_dims)
    &&& 0 <= i < rows(a_dims)
    &&& 0 <= j < cols(b_dims)
}

/// `v` is a value that summing `a[a_start + p] * b[b_start + p * b_step]` for `p` in `0..len`
/// onto `z`, one term at a time, can produce with the operators of `T`: each product is a
/// result of `T`'s `*` and each partial sum a result of `T`'s `+`.
pub open spec fn dot_reachable<T: core::ops::Add<Output = T> + core::ops::Mul<Output = T>>(
    z: T,
    a: Seq<T>,
    b: Seq<T>,
    a_start: int,
    b_start: int,
    b_step: int,
    len: nat,
    v: T,
) -> bool
    decreases len,
{
    if len == 0 {
        v == z
    } else {
        let p = len - 1;
        exists|prev: T, prod: T|
            #![trigger call_ensures(<T as core::ops::Add>::add, (prev, prod), v)]
            dot_reachable(z, a, b, a_start, b_start, b_step, (len - 1) as nat, prev)
                && call_ensures(
                <T as core::ops::Mul>::mul,
                (a[a_start + p], b[b_start + p * b_step]),
                prod,
            ) && call_ensures(<T as core::ops::Add>::add, (prev, prod), v)
    }
}

/// Every multiplication and every addition that summing as in `dot_reachable` can perform is
/// one that `T`'s operators accept.
pub open spec fn dot_steps_ok<T: core::ops::Add<Output = T> + core::ops::Mul<Output = T>>(
    z: T,
    a: Seq<T>,
    b: Seq<T>,
    a_start: int,
    b_start: int,
    b_step: int,
    len: nat,
) -> bool {
    forall|p: nat, prev: T|
        p < len && #[trigger] dot_reachable(z, a, b, a_start, b_start, b_step, p, prev) ==> {
            let x = a[a_start + p];
            let y = b[b_start + p * b_step];
            &&& x.mul_req(y)
            &&& forall|prod: T|
                call_ensures(<T as core::ops::Mul>::mul, (x, y), prod) ==> #[trigger] prev.add_req(
                    prod,
                )
        }
}

/// The operators of `T` accept every step of computing entry `(i, j)` of matrix `batch` of the
/// product of `a` by `b` from `z`.
pub open spec fn matmul_entry_steps_ok<
    T: core::ops::Add<Output = T> + core::ops::Mul<Output = T>,
>(
    z: T,
    a: Seq<T>,
    b: Seq<T>,
    a_dims: Seq<usize>,
    b_dims: Seq<usize>,
    batch: int,
    i: int,
    j: int,
) -> bool {
    let m = rows(a_dims) as int;
    let k = cols(a_dims) as int;
    let n = cols(b_dims) as int;
    dot_steps_ok(
        z,
        a,
        b,
        matrix_offset(batch, i, 0, m, k),
        matrix_offset(batch, 0, j, k, n),
        n,
        k as nat,
    )
}

/// The operators of `T` accept every step of the product of `a` by `b`, whatever value
/// `T::default()` starts each sum from.
pub open spec fn matmul_steps_ok<
    T: core::ops::Add<Output = T> + core::ops::Mul<Output = T> + Default,
>(a: Seq<T>, b: Seq<T>, a_dims: Seq<usize>, b_dims: Seq<usize>) -> bool {
    forall|z: T, batch: int, i: int, j: int|
        call_ensures(T::default, (), z) && is_product_entry(a_dims, b_dims, batch, i, j)
            ==> #[trigger] matmul_entry_steps_ok(z, a, b, a_dims, b_dims, batch, i, j)
}

/// Entry `(i, j)` of matrix `batch` of `r` is a value that computing that entry of the product
/// of `a` by `b` with `T`'s operators, from a value of `T::default()`, can produce.
pub open spec fn product_entry_reachable<
    T: core::ops::Add<Output = T> + core::ops::Mul<Output = T> + Default,
>(
    r: Seq<T>,
    a: Seq<T>,
    b: Seq<T>,
    a_dims: Seq<usize>,
    b_dims: Seq<usize>,
    batch: int,
    i: int,
    j: int,
) -> bool {
    let m = rows(a_dims) as int;
    let k = cols(a_dims) as int;
    let n = cols(b_dims) as int;
    exists|z: T|
        #![trigger call_ensures(T::default, (), z)]
        call_ensures(T::default, (), z) && dot_reachable(
            z,
            a,
            b,
            matrix_offset(batch, i, 0, m, k),
            matrix_offset(batch, 0, j, k, n),
            n,
            k as nat,
            r[matrix_offset(batch, i, j, m, n)],
        )
}

/// Entry `(i, j)` of matrix `batch` of `r` is that entry of the product of `a` by `b`,
/// accumulated onto a value of `T::default()`.
pub open spec fn product_entry_holds<
    T: core::ops::Add<Output = T> + core::ops::Mul<Output = T> + Default,
>(
    r: Seq<T>,
    a: Seq<T>,
    b: Seq<T>,
    a_dims: Seq<usize>,
    b_dims: Seq<usize>,
    batch: int,
    i: int,
    j: int,
) -> bool {
    exists|z: T|
        #![trigger matmul_entry(z, a, b, a_dims, b_dims, batch, i, j)]
        call_ensures(T::default, (), z) && r[matrix_offset(
            batch,
            i,
            j,
            rows(a_dims) as int,
            cols(b_dims) as int,
        )] == matmul_entry(z, a, b, a_dims, b_dims, batch, i, j)
}

/// A position in a batch of `m`-by-`n` matrices lies inside the batch.
pub proof fn lemma_matrix_offset_bound(batch: int, i: int, j: int, count: int, m: int, n: int)
    requires
        0 <= batch < count,
        0 <= i < m,
        0 <= j < n,
    ensures
        0 <= batch * m,
        batch * m <= batch * m * n,
        0 <= i * n,
        i * n + j < m * n,
        0 <= matrix_offset(batch, i, j, m, n) < count * m * n,
        matrix_offset(batch, i, j, m, n) == matrix_offset(batch, i, 0, m, n) + j,
{
    assert(0 <= batch * m) by (nonlinear_arith)
        requires
            0 <= batch,
            0 <= m,
    ;
    assert(batch * m <= batch * m * n) by (nonlinear_arith)
        requires
            0 <= batch * m,
            1 <= n,
    ;
    assert(0 <= i * n) by (nonlinear_arith)
        requires
            0 <= i,
            0 <= n,
    ;
    assert(i * n + j < m * n) by (nonlinear_arith)
        requires
            0 <= i < m,
            0 <= j < n,
    ;
    assert(batch * m * n + m * n <= count * m * n) by (nonlinear_arith)
        requires
            0 <= batch < count,
            0 <= m,
            0 <= n,
    ;
    assert(0 <= batch * m * n) by (nonlinear_arith)
        requires
            0 <= batch * m,
            0 <= n,
    ;
}

/// Distinct entries of a batch of `m`-by-`n` matrices have distinct positions.
pub proof fn lemma_matrix_offset_injective(
    b1: int,
    i1: int,
    j1: int,
    b2: int,
    i2: int,
    j2: int,
    m: int,
    n: int,
)
    requires
        0 <= b1,
        0 <= b2,
        0 <= i1 < m,
        0 <= i2 < m,
        0 <= j1 < n,
        0 <= j2 < n,
        matrix_offset(b1, i1, j1, m, n) == matrix_offset(b2, i2, j2, m, n),
    ensures
        b1 == b2,
        i1 == i2,
        j1 == j2,
{
    let r1 = i1 * n + j1;
    let r2 = i2 * n + j2;
    assert(0 <= r1 < m * n && 0 <= r2 < m * n) by (nonlinear_arith)
        requires
            0 <= i1 < m,
            0 <= i2 < m,
            0 <= j1 < n,
            0 <= j2 < n,
            r1 == i1 * n + j1,
            r2 == i2 * n + j2,
    ;
    assert(b1 * m * n == b1 * (m * n) && b2 * m * n == b2 * (m * n)) by (nonlinear_arith);
    let q = m * n;
    assert(b1 == b2) by (nonlinear_arith)
        requires
            b1 * q + r1 == b2 * q + r2,
            0 <= r1 < q,
            0 <= r2 < q,
            0 <= b1,
            0 <= b2,
    ;
    assert(i1 == i2) by (nonlinear_arith)
        requires
            i1 * n + j1 == i2 * n + j2,
            0 <= j1 < n,
            0 <= j2 < n,
            0 <= i1,
            0 <= i2,
    ;
}


/// `(b1, i1, j1)` comes before `(b2, i2, j2)` in row-major order.
pub open spec fn lex_before(b1: int, i1: int, j1: int, b2: int, i2: int, j2: int) -> bool {
    ||| b1 < b2
    ||| (b1 == b2 && i1 < i2)
    ||| (b1 == b2 && i1 == i2 && j1 < j2)
}

/// A prefix of a defined sum is defined.
pub proof fn lemma_dot_defined_prefix<T: core::ops::Add<Output = T> + core::ops::Mul<Output = T>>(
    z: T,
    a: Seq<T>,
    b: Seq<T>,
    a_start: int,
    b_start: int,
    b_step: int,
    len: nat,
    shorter: nat,
)
    requires
        shorter <= len,
        dot_defined(z, a, b, a_start, b_start, b_step, len),
    ensures
        dot_defined(z, a, b, a_start, b_start, b_step, shorter),
    decreases len,
{
    if shorter < len {
        lemma_dot_defined_prefix(z, a, b, a_start, b_start, b_step, (len - 1) as nat, shorter);
    }
}

/// Element counts of the operands and of the product of a batched matrix multiplication.
pub proof fn lemma_matmul_sizes(a_dims: Seq<usize>, b_dims: Seq<usize>)
    requires
        matmul_compatible(a_dims, b_dims),
    ensures
        dims_product(a_dims) == batch_count(a_dims) * rows(a_dims) * cols(a_dims),
        dims_product(b_dims) == batch_count(a_dims) * cols(a_dims) * cols(b_dims),
        dims_product(matmul_dims(a_dims, b_dims)) == batch_count(a_dims) * rows(a_dims) * cols(
            b_dims,
        ),
        batch_count(matmul_dims(a_dims, b_dims)) == batch_count(a_dims),
        rows(matmul_dims(a_dims, b_dims)) == rows(a_dims),
        cols(matmul_dims(a_dims, b_dims)) == cols(b_dims),
        matmul_dims(a_dims, b_dims).len() == a_dims.len(),
{
    let r = matmul_dims(a_dims, b_dims);
    assert(batch_dims(r) =~= batch_dims(a_dims));
    lemma_split_last_two(a_dims);
    lemma_split_last_two(b_dims);
    lemma_split_last_two(r);
    let p = batch_count(a_dims);
    let m = rows(a_dims);
    let k = cols(a_dims);
    let n = cols(b_dims);
    assert(p * (m * k) == p * m * k && p * (k * n) == p * k * n && p * (m * n) == p * m * n)
        by (nonlinear_arith);
}

/// The element count of a rank-two-or-more shape, split into batch, rows and columns.
proof fn lemma_split_last_two(dims: Seq<usize>)
    requires
        dims.len() >= 2,
    ensures
        dims_product(dims) == batch_count(dims) * (rows(dims) * cols(dims)),
{
    let l = dims.len() as int;
    let last = seq![dims[l - 2], dims[l - 1]];
    assert(dims =~= batch_dims(dims) + last);
    lemma_product_concat(batch_dims(dims), last);
    assert(last.drop_first().drop_first() =~= Seq::<usize>::empty());
    assert(last.drop_first() =~= seq![dims[l - 1]]);
    assert(dims_product(last.drop_first().drop_first()) == 1);
    assert(last.drop_first()[0] == dims[l - 1]);
    assert(dims_product(last.drop_first()) == (dims[l - 1] as nat) * 1);
    assert(last[0] == dims[l - 2]);
    assert(dims_product(last) == (dims[l - 2] as nat) * (dims[l - 1] as nat));
}

/// The product of valid shapes has a shape whose dimensions are all at least one.
pub proof fn lemma_matmul_dims_positive(a_dims: Seq<usize>, b_dims: Seq<usize>)
    requires
        matmul_compatible(a_dims, b_dims),
        valid_dims(a_dims),
        valid_dims(b_dims),
        dims_product(matmul_dims(a_dims, b_dims)) <= usize::MAX,
    ensures
        valid_dims(matmul_dims(a_dims, b_dims)),
{
    let r = matmul_dims(a_dims, b_dims);
    assert forall|d: int| 0 <= d < r.len() implies r[d] >= 1 by {
        if d == r.len() - 1 {
            assert(b_dims[b_dims.len() - 1] >= 1);
        } else {
            assert(a_dims[d] >= 1);
        }
    }
}


/// The element at multi-index `batch_idx ++ [i, j]` of a tensor of rank two or more is entry
/// `(i, j)` of matrix number `flat_index(batch_dims, batch_idx)`: the numbering used by
/// `matrix_offset` and `product_entry_holds` is the one that `get` reads.
pub proof fn law_matrix_position(dims: Seq<usize>, batch_idx: Seq<usize>, i: usize, j: usize)
    requires
        dims.len() >= 2,
        index_in_bounds(batch_dims(dims), batch_idx),
        i < rows(dims),
        j < cols(dims),
    ensures
        index_in_bounds(dims, batch_idx.push(i).push(j)),
        0 <= flat_index(batch_dims(dims), batch_idx) < batch_count(dims),
        flat_index(dims, batch_idx.push(i).push(j)) == matrix_offset(
            flat_index(batch_dims(dims), batch_idx),
            i as int,
            j as int,
            rows(dims) as int,
            cols(dims) as int,
        ),
{
    let l = dims.len() as int;
    let last = seq![dims[l - 2], dims[l - 1]];
    let pos = seq![i, j];
    let full = batch_idx.push(i).push(j);
    assert(dims =~= batch_dims(dims) + last);
    assert(full =~= batch_idx + pos);
    assert forall|d: int| 0 <= d < dims.len() implies full[d] < dims[d] by {
        if d < l - 2 {
            assert(full[d] == batch_idx[d]);
            assert(batch_dims(dims)[d] == dims[d]);
        }
    }
    lemma_flat_index_concat(batch_dims(dims), last, batch_idx, pos);
    lemma_flat_index_bound(batch_dims(dims), batch_idx);
    let m = dims[l - 2] as int;
    let n = dims[l - 1] as int;
    assert(last.drop_first() =~= seq![dims[l - 1]]);
    assert(pos.drop_first() =~= seq![j]);
    assert(last.drop_first().drop_first() =~= Seq::<usize>::empty());
    assert(pos.drop_first().drop_first() =~= Seq::<usize>::empty());
    assert(dims_product(last.drop_first().drop_first()) == 1);
    assert(dims_product(last.drop_first()) == n * 1);
    assert(dims_product(last) == m * n);
    assert(flat_index(last.drop_first().drop_first(), pos.drop_first().drop_first()) == 0);
    assert(flat_index(last.drop_first(), pos.drop_first()) == (j as int) * 1 + 0);
    assert(flat_index(last, pos) == (i as int) * n + (j as int));
    let f = flat_index(batch_dims(dims), batch_idx);
    assert(f * (m * n) == f * m * n) by (nonlinear_arith);
}


/// When `T`'s operators follow their specification, summing can produce only `dot`.
pub proof fn lemma_dot_reachable_is_dot<T: core::ops::Add<Output = T> + core::ops::Mul<Output = T>>(
    z: T,
    a: Seq<T>,
    b: Seq<T>,
    a_start: int,
    b_start: int,
    b_step: int,
    len: nat,
    v: T,
)
    requires
        T::obeys_add_spec(),
        T::obeys_mul_spec(),
        dot_reachable(z, a, b, a_start, b_start, b_step, len, v),
    ensures
        v == dot(z, a, b, a_start, b_start, b_step, len),
    decreases len,
{
    if len > 0 {
        let p = len - 1;
        let (prev, prod) = choose|prev: T, prod: T|
            #![trigger call_ensures(<T as core::ops::Add>::add, (prev, prod), v)]
            dot_reachable(z, a, b, a_start, b_start, b_step, (len - 1) as nat, prev)
                && call_ensures(
                <T as core::ops::Mul>::mul,
                (a[a_start + p], b[b_start + p * b_step]),
                prod,
            ) && call_ensures(<T as core::ops::Add>::add, (prev, prod), v);
        lemma_dot_reachable_is_dot(z, a, b, a_start, b_start, b_step, (len - 1) as nat, prev);
    }
}

/// When `T`'s operators follow their specification, a sum whose steps `dot_defined` accepts
/// has all its steps accepted.
pub proof fn lemma_dot_steps_ok_from_defined<
    T: core::ops::Add<Output = T> + core::ops::Mul<Output = T>,
>(z: T, a: Seq<T>, b: Seq<T>, a_start: int, b_start: int, b_step: int, len: nat)
    requires
        T::obeys_add_spec(),
        T::obeys_mul_spec(),
        dot_defined(z, a, b, a_start, b_start, b_step, len),
    ensures
        dot_steps_ok(z, a, b, a_start, b_start, b_step, len),
{
    assert forall|p: nat, prev: T|
        p < len && #[trigger] dot_reachable(z, a, b, a_start, b_start, b_step, p, prev) implies {
        let x = a[a_start + p];
        let y = b[b_start + p * b_step];
        &&& x.mul_req(y)
        &&& forall|prod: T|
            call_ensures(<T as core::ops::Mul>::mul, (x, y), prod) ==> #[trigger] prev.add_req(prod)
    } by {
        lemma_dot_defined_prefix(z, a, b, a_start, b_start, b_step, len, p + 1);
        lemma_dot_reachable_is_dot(z, a, b, a_start, b_start, b_step, p, prev);
    }
}


/// When `T`'s operators follow their specification, a product whose entries `dot_defined`
/// accepts (from every value of `T::default()`) meets `matmul_steps_ok`.
pub proof fn lemma_matmul_steps_ok_from_defined<
    T: core::ops::Add<Output = T> + core::ops::Mul<Output = T> + Default,
>(a: Seq<T>, b: Seq<T>, a_dims: Seq<usize>, b_dims: Seq<usize>)
    requires
        T::obeys_add_spec(),
        T::obeys_mul_spec(),
        forall|z: T, batch: int, i: int, j: int|
            call_ensures(T::default, (), z) && is_product_entry(a_dims, b_dims, batch, i, j)
                ==> #[trigger] matmul_entry_defined(z, a, b, a_dims, b_dims, batch, i, j),
    ensures
        matmul_steps_ok(a, b, a_dims, b_dims),
{
    assert forall|z: T, batch: int, i: int, j: int|
        call_ensures(T::default, (), z) && is_product_entry(
            a_dims,
            b_dims,
            batch,
            i,
            j,
        ) implies #[trigger] matmul_entry_steps_ok(z, a, b, a_dims, b_dims, batch, i, j) by {
        assert(matmul_entry_defined(z, a, b, a_dims, b_dims, batch, i, j));
        let m = rows(a_dims) as int;
        let k = cols(a_dims) as int;
        let n = cols(b_dims) as int;
        lemma_dot_steps_ok_from_defined(
            z,
            a,
            b,
            matrix_offset(batch, i, 0, m, k),
            matrix_offset(batch, 0, j, k, n),
            n,
            k as nat,
        );
    }
}


/// Every entry of the product of `a` by `b` that precedes `(batch, i, j)` in row-major order is
/// stored in `r` as `product_entry_reachable` says, and as `product_entry_holds` says when `T`'s
/// operators follow their specification.
pub open spec fn product_prefix_done<
    T: core::ops::Add<Output = T> + core::ops::Mul<Output = T> + Default,
>(
    r: Seq<T>,
    a: Seq<T>,
    b: Seq<T>,
    a_dims: Seq<usize>,
    b_dims: Seq<usize>,
    batch: int,
    i: int,
    j: int,
) -> bool {
    &&& forall|bb: int, ii: int, jj: int|
        is_product_entry(a_dims, b_dims, bb, ii, jj) && lex_before(bb, ii, jj, batch, i, j)
            ==> #[trigger] product_entry_reachable(r, a, b, a_dims, b_dims, bb, ii, jj)
    &&& T::obeys_add_spec() && T::obeys_mul_spec() ==> forall|bb: int, ii: int, jj: int|
        is_product_entry(a_dims, b_dims, bb, ii, jj) && lex_before(bb, ii, jj, batch, i, j)
            ==> #[trigger] product_entry_holds(r, a, b, a_dims, b_dims, bb, ii, jj)
}

/// Storing entry `(batch, i, j)`, computed from a value of `T::default()`, extends the finished
/// prefix of the product by that entry.
pub proof fn lemma_product_prefix_store<
    T: core::ops::Add<Output = T> + core::ops::Mul<Output = T> + Default,
>(
    before: Seq<T>,
    after: Seq<T>,
    a: Seq<T>,
    b: Seq<T>,
    a_dims: Seq<usize>,
    b_dims: Seq<usize>,
    batch: int,
    i: int,
    j: int,
    z: T,
)
    requires
        is_product_entry(a_dims, b_dims, batch, i, j),
        before.len() == batch_count(a_dims) * rows(a_dims) * cols(b_dims),
        product_prefix_done(before, a, b, a_dims, b_dims, batch, i, j),
        call_ensures(T::default, (), z),
        after.len() == before.len(),
        forall|p: int|
            0 <= p < before.len() && p != matrix_offset(
                batch,
                i,
                j,
                rows(a_dims) as int,
                cols(b_dims) as int,
            ) ==> #[trigger] after[p] == before[p],
        dot_reachable(
            z,
            a,
            b,
            matrix_offset(batch, i, 0, rows(a_dims) as int, cols(a_dims) as int),
            matrix_offset(batch, 0, j, cols(a_dims) as int, cols(b_dims) as int),
            cols(b_dims) as int,
            cols(a_dims),
            after[matrix_offset(batch, i, j, rows(a_dims) as int, cols(b_dims) as int)],
        ),
    ensures
        product_prefix_done(after, a, b, a_dims, b_dims, batch, i, j + 1),
{
    let m = rows(a_dims) as int;
    let k = cols(a_dims) as int;
    let n = cols(b_dims) as int;
    let count = batch_count(a_dims) as int;
    let here = matrix_offset(batch, i, j, m, n);
    let obeys = T::obeys_add_spec() && T::obeys_mul_spec();
    assert(product_entry_reachable(after, a, b, a_dims, b_dims, batch, i, j));
    if obeys {
        lemma_dot_reachable_is_dot(
            z,
            a,
            b,
            matrix_offset(batch, i, 0, m, k),
            matrix_offset(batch, 0, j, k, n),
            n,
            k as nat,
            after[here],
        );
        assert(after[here] == matmul_entry(z, a, b, a_dims, b_dims, batch, i, j));
        assert(product_entry_holds(after, a, b, a_dims, b_dims, batch, i, j));
    }
    assert forall|bb: int, ii: int, jj: int|
        is_product_entry(a_dims, b_dims, bb, ii, jj) && lex_before(
            bb,
            ii,
            jj,
            batch,
            i,
            j + 1,
        ) implies #[trigger] product_entry_reachable(after, a, b, a_dims, b_dims, bb, ii, jj) by {
        if bb != batch || ii != i || jj != j {
            lemma_matrix_offset_bound(bb, ii, jj, count, m, n);
            if matrix_offset(bb, ii, jj, m, n) == here {
                lemma_matrix_offset_injective(bb, ii, jj, batch, i, j, m, n);
            }
            let pos = matrix_offset(bb, ii, jj, m, n);
            assert(after[pos] == before[pos]);
            assert(product_entry_reachable(before, a, b, a_dims, b_dims, bb, ii, jj));
        }
    }
    if obeys {
        assert forall|bb: int, ii: int, jj: int|
            is_product_entry(a_dims, b_dims, bb, ii, jj) && lex_before(
                bb,
                ii,
                jj,
                batch,
                i,
                j + 1,
            ) implies #[trigger] product_entry_holds(after, a, b, a_dims, b_dims, bb, ii, jj) by {
            if bb != batch || ii != i || jj != j {
                lemma_matrix_offset_bound(bb, ii, jj, count, m, n);
                if matrix_offset(bb, ii, jj, m, n) == here {
                    lemma_matrix_offset_injective(bb, ii, jj, batch, i, j, m, n);
                }
                let pos = matrix_offset(bb, ii, jj, m, n);
                assert(product_entry_holds(before, a, b, a_dims, b_dims, bb, ii, jj));
                let w = choose|w: T|
                    #![trigger matmul_entry(w, a, b, a_dims, b_dims, bb, ii, jj)]
                    call_ensures(T::default, (), w) && before[pos] == matmul_entry(
                        w,
                        a,
                        b,
                        a_dims,
                        b_dims,
                        bb,
                        ii,
                        jj,
                    );
                assert(after[pos] == matmul_entry(w, a, b, a_dims, b_dims, bb, ii, jj));
            }
        }
    }
}


/// Entry `(p, q)` of an `n`-column matrix stored row by row in `e`.
pub open spec fn matrix_at<T>(e: Seq<T>, n: int, p: int, q: int) -> T {
    e[p * n + q]
}

/// `e` holds the `n`-by-`n` identity matrix of `i64`.
pub open spec fn is_identity(e: Seq<i64>, n: int) -> bool {
    &&& e.len() == n * n
    &&& forall|p: int, q: int|
        0 <= p < n && 0 <= q < n ==> #[trigger] matrix_at(e, n, p, q) == if p == q {
            1i64
        } else {
            0i64
        }
}

/// Summing row `a[a_start..]` against column `j` of an identity matrix picks entry `j` of the
/// row, and no step overflows.
proof fn lemma_dot_identity_column(a: Seq<i64>, e: Seq<i64>, a_start: int, j: int, k: int, len: nat)
    requires
        is_identity(e, k),
        0 <= j < k,
        len <= k,
        0 <= a_start,
        a_start + len <= a.len(),
    ensures
        dot(0i64, a, e, a_start, j, k, len) == if j < len {
            a[a_start + j]
        } else {
            0i64
        },
        dot_defined(0i64, a, e, a_start, j, k, len),
    decreases len,
{
    if len > 0 {
        let p = len - 1;
        lemma_dot_identity_column(a, e, a_start, j, k, (len - 1) as nat);
        assert(matrix_at(e, k, p, j) == e[j + p * k]);
        let x = a[a_start + p];
        let y = e[j + p * k];
        if p == j {
            assert(y == 1);
            assert(x * y == x);
        } else {
            assert(y == 0);
            assert(x * y == 0);
        }
    }
}

/// Summing row `i` of an identity matrix against column `a[b_start..]` (step `k`) picks entry
/// `i` of the column, and no step overflows.
proof fn lemma_dot_identity_row(
    e: Seq<i64>,
    a: Seq<i64>,
    i: int,
    m: int,
    b_start: int,
    k: int,
    len: nat,
)
    requires
        is_identity(e, m),
        0 <= i < m,
        len <= m,
        0 <= b_start,
        0 <= k,
        len > 0 ==> b_start + (len - 1) * k < a.len(),
    ensures
        dot(0i64, e, a, i * m, b_start, k, len) == if i < len {
            a[b_start + i * k]
        } else {
            0i64
        },
        dot_defined(0i64, e, a, i * m, b_start, k, len),
    decreases len,
{
    if len > 0 {
        let p = len - 1;
        if len > 1 {
            assert(b_start + (len - 2) * k <= b_start + (len - 1) * k) by (nonlinear_arith)
                requires
                    0 <= k,
                    len > 1,
            ;
        }
        lemma_dot_identity_row(e, a, i, m, b_start, k, (len - 1) as nat);
        assert(matrix_at(e, m, i, p) == e[i * m + p]);
        let x = e[i * m + p];
        let y = a[b_start + p * k];
        if p == i {
            assert(x == 1);
            assert(x * y == y);
        } else {
            assert(x == 0);
            assert(x * y == 0) by (nonlinear_arith)
                requires
                    x == 0,
            ;
        }
    }
}

/// The element count and entry positions of an `m`-by-`k` matrix seen as a batch of one.
proof fn lemma_single_matrix(m: usize, k: usize)
    ensures
        batch_count(seq![m, k]) == 1,
        rows(seq![m, k]) == m,
        cols(seq![m, k]) == k,
        forall|i: int, j: int| #[trigger] matrix_offset(0, i, j, m as int, k as int) == i * k + j,
{
    let d = seq![m, k];
    assert(batch_dims(d) =~= Seq::<usize>::empty());
    assert(dims_product(Seq::<usize>::empty()) == 1);
    assert forall|i: int, j: int| #[trigger] matrix_offset(0, i, j, m as int, k as int) == i * k + j by {
        assert(0 * (m as int) * (k as int) == 0) by (nonlinear_arith);
    }
}

/// Multiplying `m`-by-`k` matrices of `i64` on the right by the identity never overflows:
/// `matmul` accepts the pair.
pub proof fn lemma_right_identity_steps_ok(a: Seq<i64>, e: Seq<i64>, m: usize, k: usize)
    requires
        a.len() == m * k,
        is_identity(e, k as int),
    ensures
        matmul_steps_ok(a, e, seq![m, k], seq![k, k]),
{
    lemma_single_matrix(m, k);
    lemma_single_matrix(k, k);
    let ad = seq![m, k];
    let ed = seq![k, k];
    assert forall|z: i64, batch: int, i: int, j: int|
        call_ensures(i64::default, (), z) && is_product_entry(ad, ed, batch, i, j) implies #[trigger]
        matmul_entry_defined(z, a, e, ad, ed, batch, i, j) by {
        assert(z == 0);
        assert(batch == 0);
        assert(matrix_offset(0, i, 0, m as int, k as int) == i * (k as int));
        assert(matrix_offset(0, 0, j, k as int, k as int) == j);
        assert(i * (k as int) + (k as int) <= (m as int) * (k as int)) by (nonlinear_arith)
            requires
                0 <= i < m,
                0 <= k,
        ;
        lemma_dot_identity_column(a, e, i * (k as int), j, k as int, k as nat);
    }
    lemma_matmul_steps_ok_from_defined(a, e, ad, ed);
}

/// Multiplying `m`-by-`k` matrices of `i64` on the left by the identity never overflows:
/// `matmul` accepts the pair.
pub proof fn lemma_left_identity_steps_ok(e: Seq<i64>, a: Seq<i64>, m: usize, k: usize)
    requires
        a.len() == m * k,
        is_identity(e, m as int),
    ensures
        matmul_steps_ok(e, a, seq![m, m], seq![m, k]),
{
    lemma_single_matrix(m, m);
    lemma_single_matrix(m, k);
    let ed = seq![m, m];
    let ad = seq![m, k];
    assert forall|z: i64, batch: int, i: int, j: int|
        call_ensures(i64::default, (), z) && is_product_entry(ed, ad, batch, i, j) implies #[trigger]
        matmul_entry_defined(z, e, a, ed, ad, batch, i, j) by {
        assert(z == 0);
        assert(batch == 0);
        assert(matrix_offset(0, i, 0, m as int, m as int) == i * (m as int));
        assert(matrix_offset(0, 0, j, m as int, k as int) == j);
        assert(j + ((m as int) - 1) * (k as int) < (m as int) * (k as int)) by (nonlinear_arith)
            requires
                0 <= j < k,
                1 <= m,
        ;
        lemma_dot_identity_row(e, a, i, m as int, j, k as int, m as nat);
    }
    lemma_matmul_steps_ok_from_defined(e, a, ed, ad);
}

/// The identity matrix is a right identity of `matmul` on `i64` matrices: when every entry of
/// `c` is the product entry of `a` (`m`-by-`k`) by the `k`-by-`k` identity, `c` equals `a`.
pub proof fn law_matmul_right_identity(
    a: Seq<i64>,
    e: Seq<i64>,
    c: Seq<i64>,
    a_dims: Seq<usize>,
    e_dims: Seq<usize>,
    m: usize,
    k: usize,
)
    requires
        a_dims == seq![m, k],
        e_dims == seq![k, k],
        a.len() == m * k,
        is_identity(e, k as int),
        forall|i: int, j: int|
            0 <= i < m && 0 <= j < k ==> #[trigger] product_entry_holds(
                c,
                a,
                e,
                a_dims,
                e_dims,
                0,
                i,
                j,
            ),
    ensures
        forall|i: int, j: int|
            0 <= i < m && 0 <= j < k ==> #[trigger] matrix_at(c, k as int, i, j) == matrix_at(
                a,
                k as int,
                i,
                j,
            ),
{
    lemma_single_matrix(m, k);
    lemma_single_matrix(k, k);
    let ad = seq![m, k];
    let ed = seq![k, k];
    assert forall|i: int, j: int| 0 <= i < m && 0 <= j < k implies #[trigger] matrix_at(
        c,
        k as int,
        i,
        j,
    ) == matrix_at(a, k as int, i, j) by {
        assert(product_entry_holds(c, a, e, ad, ed, 0, i, j));
        let z = choose|z: i64|
            #![trigger matmul_entry(z, a, e, ad, ed, 0, i, j)]
            call_ensures(i64::default, (), z) && c[matrix_offset(0, i, j, m as int, k as int)]
                == matmul_entry(z, a, e, ad, ed, 0, i, j);
        assert(z == 0);
        assert(matrix_offset(0, i, 0, m as int, k as int) == i * (k as int));
        assert(matrix_offset(0, 0, j, k as int, k as int) == j);
        assert(i * (k as int) + (k as int) <= (m as int) * (k as int)) by (nonlinear_arith)
            requires
                0 <= i < m,
                0 <= k,
        ;
        lemma_dot_identity_column(a, e, i * (k as int), j, k as int, k as nat);
    }
}

/// The identity matrix is a left identity of `matmul` on `i64` matrices: when every entry of
/// `c` is the product entry of the `m`-by-`m` identity by `a` (`m`-by-`k`), `c` equals `a`.
pub proof fn law_matmul_left_identity(
    e: Seq<i64>,
    a: Seq<i64>,
    c: Seq<i64>,
    e_dims: Seq<usize>,
    a_dims: Seq<usize>,
    m: usize,
    k: usize,
)
    requires
        e_dims == seq![m, m],
        a_dims == seq![m, k],
        a.len() == m * k,
        is_identity(e, m as int),
        forall|i: int, j: int|
            0 <= i < m && 0 <= j < k ==> #[trigger] product_entry_holds(
                c,
                e,
                a,
                e_dims,
                a_dims,
                0,
                i,
                j,
            ),
    ensures
        forall|i: int, j: int|
            0 <= i < m && 0 <= j < k ==> #[trigger] matrix_at(c, k as int, i, j) == matrix_at(
                a,
                k as int,
                i,
                j,
            ),
{
    lemma_single_matrix(m, m);
    lemma_single_matrix(m, k);
    let ed = seq![m, m];
    let ad = seq![m, k];
    assert forall|i: int, j: int| 0 <= i < m && 0 <= j < k implies #[trigger] matrix_at(
        c,
        k as int,
        i,
        j,
    ) == matrix_at(a, k as int, i, j) by {
        assert(product_entry_holds(c, e, a, ed, ad, 0, i, j));
        let z = choose|z: i64|
            #![trigger matmul_entry(z, e, a, ed, ad, 0, i, j)]
            call_ensures(i64::default, (), z) && c[matrix_offset(0, i, j, m as int, k as int)]
                == matmul_entry(z, e, a, ed, ad, 0, i, j);
        assert(z == 0);
        assert(matrix_offset(0, i, 0, m as int, m as int) == i * (m as int));
        assert(matrix_offset(0, 0, j, m as int, k as int) == j);
        assert(j + ((m as int) - 1) * (k as int) < (m as int) * (k as int)) by (nonlinear_arith)
            requires
                0 <= j < k,
                1 <= m,
        ;
        lemma_dot_identity_row(e, a, i, m as int, j, k as int, m as nat);
    }
}

} // verus!
