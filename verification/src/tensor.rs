//! Dense N-dimensional tensors stored in row-major order.

use vstd::prelude::*;
use vstd::std_specs::ops::{AddSpec, DivSpec, MulSpec, SubSpec};
use crate::linalg::{
    batch_count, batch_dims, dot_reachable, is_product_entry, lemma_matmul_dims_positive,
    lemma_matmul_sizes, lemma_matrix_offset_bound, lemma_product_prefix_store, matmul_compatible,
    matmul_dims, matmul_entry_steps_ok, matmul_steps_ok, matrix_offset, product_entry_holds,
    product_entry_reachable, product_prefix_done,
};
use crate::shape::{
    dims_product, flat_index, index_in_bounds, is_row_major, lemma_flat_index_bound,
    lemma_flat_index_injective, lemma_flat_index_skip_step, lemma_product_ge_one,
    lemma_product_skip_le, lemma_product_skip_step, lemma_product_take_step, row_major_stride,
    valid_dims,
};

verus! {

/// A dense tensor of rank `N` whose elements are laid out in row-major order.
/// `SIZE` is a size hint carried in the type only.
#[derive(Debug)]
pub struct Tensor<T, const SIZE: usize, const N: usize> {
    shape: [usize; N],
    strides: [usize; N],
    data: Vec<T>,
}

impl<T, const SIZE: usize, const N: usize> View for Tensor<T, SIZE, N> {
    type V = Seq<T>;

    /// The elements, in storage order.
    closed spec fn view(&self) -> Seq<T> {
        self.data@
    }
}

impl<T, const SIZE: usize, const N: usize> Tensor<T, SIZE, N> {
    /// The shape is valid and the strides are the row-major strides of the shape.
    #[verifier::type_invariant]
    closed spec fn layout_ok(self) -> bool {
        &&& valid_dims(self.shape@)
        &&& is_row_major(self.shape@, self.strides@)
    }

    /// The dimensions of the tensor.
    pub closed spec fn dims(&self) -> Seq<usize> {
        self.shape@
    }

    /// A tensor of rank `N` has `N` dimensions.
    pub proof fn lemma_rank(self)
        ensures
            self.dims().len() == N,
    {
    }

    /// The element at multi-index `idx`, read from storage.
    pub open spec fn at(&self, idx: Seq<usize>) -> T {
        self@[flat_index(self.dims(), idx)]
    }

    /// Storage position of `idx`, or `None` when some coordinate is out of range.
    fn offset_of(&self, idx: &[usize]) -> (r: Option<usize>)
        requires
            idx@.len() == N,
        ensures
            r is Some <==> index_in_bounds(self.dims(), idx@),
            r matches Some(o) ==> o == flat_index(self.dims(), idx@) && o < dims_product(
                self.dims(),
            ),
    {
        proof {
            use_type_invariant(self);
        }
        let ghost dims = self.shape@;
        let mut offset: usize = 0;
        let mut d: usize = 0;
        assert(dims.skip(0) =~= dims);
        assert(idx@.skip(0) =~= idx@);
        while d < N
            invariant
                d <= N,
                dims == self.shape@,
                valid_dims(dims),
                is_row_major(dims, self.strides@),
                dims.len() == N,
                idx@.len() == N,
                forall|e: int| 0 <= e < d ==> idx@[e] < dims[e],
                offset + flat_index(dims.skip(d as int), idx@.skip(d as int)) == flat_index(
                    dims,
                    idx@,
                ),
                offset + dims_product(dims.skip(d as int)) <= dims_product(dims),
            decreases N - d,
        {
            if idx[d] >= self.shape[d] {
                return None;
            }
            proof {
                lemma_flat_index_skip_step(dims, idx@, d as int);
                lemma_product_skip_step(dims, d as int);
                let p = dims_product(dims.skip(d + 1)) as int;
                let x = idx@[d as int] as int;
                let n = dims[d as int] as int;
                assert(x * p + p <= n * p) by (nonlinear_arith)
                    requires
                        0 <= x < n,
                        0 <= p,
                ;
            }
            offset = offset + idx[d] * self.strides[d];
            d += 1;
        }
        assert(dims.skip(N as int) =~= Seq::<usize>::empty());
        assert(idx@.skip(N as int) =~= Seq::<usize>::empty());
        Some(offset)
    }

    /// A tensor of the given shape whose elements, in storage order, are `data`.
    pub fn from_data(shape: [usize; N], data: Vec<T>) -> (t: Self)
        requires
            valid_dims(shape@),
            data@.len() == dims_product(shape@),
        ensures
            t.dims() == shape@,
            t@ == data@,
    {
        let (strides, _size) = row_major_strides(shape);
        Tensor { shape, strides, data }
    }
}

/// Row-major strides of `shape`, with the element count as the second result.
fn row_major_strides<const N: usize>(shape: [usize; N]) -> (res: ([usize; N], usize))
    requires
        valid_dims(shape@),
    ensures
        is_row_major(shape@, res.0@),
        res.1 == dims_product(shape@),
{
    let mut strides = shape;
    let mut acc: usize = 1;
    let mut i: usize = N;
    assert(shape@.skip(N as int) =~= Seq::<usize>::empty());
    while i > 0
        invariant
            i <= N,
            valid_dims(shape@),
            strides@.len() == N,
            acc == dims_product(shape@.skip(i as int)),
            forall|j: int| i <= j < N ==> strides@[j] == row_major_stride(shape@, j),
        decreases i,
    {
        i -= 1;
        strides[i] = acc;
        proof {
            lemma_product_skip_step(shape@, i as int);
            lemma_product_skip_le(shape@, i as int);
            let p = dims_product(shape@.skip(i as int));
            let x = shape@[i as int] as nat;
            let a = acc as nat;
            assert(a * x == p) by (nonlinear_arith)
                requires
                    p == x * a,
            ;
        }
        acc = acc * shape[i];
    }
    assert(shape@.skip(0) =~= shape@);
    (strides, acc)
}

impl<T: Clone, const SIZE: usize, const N: usize> Clone for Tensor<T, SIZE, N> {
    /// A tensor of the same shape whose elements are clones of these.
    fn clone(&self) -> (r: Self)
        ensures
            r.dims() == self.dims(),
            r@.len() == self@.len(),
            forall|i: int| 0 <= i < self@.len() ==> cloned::<T>(self@[i], #[trigger] r@[i]),
    {
        proof {
            use_type_invariant(self);
        }
        Tensor { shape: self.shape, strides: self.strides, data: self.data.clone() }
    }
}

impl<T: Default + Copy, const SIZE: usize, const N: usize> Tensor<T, SIZE, N> {
    /// A tensor of the given shape filled with `T::default()`.
    pub fn new(shape: [usize; N]) -> (t: Self)
        requires
            valid_dims(shape@),
        ensures
            t.dims() == shape@,
            t@.len() == dims_product(shape@),
            call_ensures(T::default, (), t@[0]),
            forall|i: int| 0 <= i < t@.len() ==> #[trigger] t@[i] == t@[0],
    {
        let (strides, size) = row_major_strides(shape);
        proof {
            lemma_product_ge_one(shape@);
        }
        let zero = T::default();
        let mut data: Vec<T> = Vec::new();
        let mut c: usize = 0;
        while c < size
            invariant
                c <= size,
                data@.len() == c,
                forall|i: int| 0 <= i < c ==> #[trigger] data@[i] == zero,
            decreases size - c,
        {
            data.push(zero);
            c += 1;
        }
        Tensor { shape, strides, data }
    }

    /// A tensor of the given shape filled with values drawn from the thread-local random
    /// generator.
    pub fn rand(shape: [usize; N]) -> (t: Self) where
        rand::distributions::Standard: rand::distributions::Distribution<T>,

        requires
            valid_dims(shape@),
        ensures
            t.dims() == shape@,
            t@.len() == dims_product(shape@),
            forall|i: int| 0 <= i < t@.len() ==> is_drawn(#[trigger] t@[i]),
    {
        proof {
            lemma_product_ge_one(shape@);
        }
        let size = element_count(shape);
        let data = random_elements::<T>(size);
        Self::from_data(shape, data)
    }

    /// Overwrites all elements with `data`, in storage order.
    pub fn set_data(&mut self, data: &[T])
        requires
            data@.len() == old(self)@.len(),
        ensures
            final(self)@ == data@,
            final(self).dims() == old(self).dims(),
    {
        proof {
            use_type_invariant(&*self);
        }
        let n = data.len();
        let mut buf: Vec<T> = Vec::new();
        std::mem::swap(&mut buf, &mut self.data);
        let mut i: usize = 0;
        while i < n
            invariant
                n == data@.len(),
                i <= n,
                buf@.len() == n,
                forall|j: int| 0 <= j < i ==> buf@[j] == data@[j],
            decreases n - i,
        {
            buf.set(i, data[i]);
            i += 1;
        }
        assert(buf@ =~= data@);
        self.data = buf;
    }

    /// The dimensions of the tensor.
    pub fn shape(&self) -> (r: &[usize; N])
        ensures
            r@ == self.dims(),
            valid_dims(r@),
    {
        proof {
            use_type_invariant(self);
        }
        &self.shape
    }

    /// The row-major strides of the tensor.
    pub fn strides(&self) -> (r: &[usize; N])
        ensures
            is_row_major(self.dims(), r@),
    {
        proof {
            use_type_invariant(self);
        }
        &self.strides
    }

    /// The element at `idx`, or `None` when some coordinate is out of range.
    pub fn get(&self, idx: [usize; N]) -> (r: Option<&T>)
        requires
            index_in_bounds(self.dims(), idx@) ==> flat_index(self.dims(), idx@) < self@.len(),
        ensures
            r is Some <==> index_in_bounds(self.dims(), idx@),
            r matches Some(v) ==> *v == self.at(idx@),
    {
        match self.offset_of(&idx) {
            Some(offset) => Some(&self.data[offset]),
            None => None,
        }
    }
}


/// Operations shared by tensors: inspection, indexed access and arithmetic.
pub trait TensorOps<T> {
    /// The dimensions, as the contracts see them.
    spec fn dims_of(&self) -> Seq<usize>;

    /// The elements in storage order, as the contracts see them.
    spec fn elements(&self) -> Seq<T>;

    /// The dimensions.
    fn shape(&self) -> (r: &[usize])
        ensures
            r@ == self.dims_of(),
    ;

    /// The row-major strides.
    fn strides(&self) -> (r: &[usize])
        ensures
            is_row_major(self.dims_of(), r@),
    ;

    /// The number of stored elements.
    fn len(&self) -> (r: usize)
        ensures
            r == self.elements().len(),
    ;

    /// Whether no element is stored.
    fn is_empty(&self) -> (r: bool)
        ensures
            r == (self.elements().len() == 0),
    ;

    /// The element at `idx`, or `None` when `idx` has the wrong length or a coordinate is out
    /// of range.
    fn get(&self, idx: &[usize]) -> (r: Option<&T>)
        requires
            index_in_bounds(self.dims_of(), idx@) ==> flat_index(self.dims_of(), idx@)
                < self.elements().len(),
        ensures
            r is Some <==> index_in_bounds(self.dims_of(), idx@),
            r matches Some(v) ==> *v == self.elements()[flat_index(self.dims_of(), idx@)],
    ;

    /// Writes `value` at `idx`; fails, changing nothing, when `idx` has the wrong length or a
    /// coordinate is out of range.
    fn set(&mut self, idx: &[usize], value: T) -> (r: Result<(), &'static str>)
        requires
            index_in_bounds(old(self).dims_of(), idx@) ==> flat_index(old(self).dims_of(), idx@)
                < old(self).elements().len(),
        ensures
            final(self).dims_of() == old(self).dims_of(),
            r is Ok <==> index_in_bounds(old(self).dims_of(), idx@),
            r is Ok ==> final(self).elements() == old(self).elements().update(
                flat_index(old(self).dims_of(), idx@),
                value,
            ),
            r matches Err(e) ==> final(self).elements() == old(self).elements() && (if idx@.len()
                != old(self).dims_of().len() {
                e@ == "Invalid index dimension"@
            } else {
                e@ == "Index out of bounds"@
            }),
    ;

    /// Element-wise sum; the result takes the shape of `rhs` and the length of `self`.
    fn add(&self, rhs: &Self) -> (r: Self) where T: Copy + core::ops::Add<Output = T>, Self: Sized
        requires
            self.elements().len() <= rhs.elements().len(),
            forall|i: int|
                0 <= i < self.elements().len() ==> #[trigger] self.elements()[i].add_req(
                    rhs.elements()[i],
                ),
        ensures
            r.dims_of() == rhs.dims_of(),
            r.elements().len() == self.elements().len(),
            forall|i: int|
                0 <= i < self.elements().len() ==> call_ensures(
                    <T as core::ops::Add>::add,
                    (self.elements()[i], rhs.elements()[i]),
                    #[trigger] r.elements()[i],
                ),
            T::obeys_add_spec() ==> forall|i: int|
                0 <= i < self.elements().len() ==> #[trigger] r.elements()[i]
                    == self.elements()[i].add_spec(rhs.elements()[i]),
    ;

    /// Element-wise difference; the result takes the shape of `rhs` and the length of `self`.
    fn sub(&self, rhs: &Self) -> (r: Self) where T: Copy + core::ops::Sub<Output = T>, Self: Sized
        requires
            self.elements().len() <= rhs.elements().len(),
            forall|i: int|
                0 <= i < self.elements().len() ==> #[trigger] self.elements()[i].sub_req(
                    rhs.elements()[i],
                ),
        ensures
            r.dims_of() == rhs.dims_of(),
            r.elements().len() == self.elements().len(),
            forall|i: int|
                0 <= i < self.elements().len() ==> call_ensures(
                    <T as core::ops::Sub>::sub,
                    (self.elements()[i], rhs.elements()[i]),
                    #[trigger] r.elements()[i],
                ),
            T::obeys_sub_spec() ==> forall|i: int|
                0 <= i < self.elements().len() ==> #[trigger] r.elements()[i]
                    == self.elements()[i].sub_spec(rhs.elements()[i]),
    ;

    /// Element-wise product; the result takes the shape of `rhs` and the length of `self`.
    fn mul(&self, rhs: &Self) -> (r: Self) where T: Copy + core::ops::Mul<Output = T>, Self: Sized
        requires
            self.elements().len() <= rhs.elements().len(),
            forall|i: int|
                0 <= i < self.elements().len() ==> #[trigger] self.elements()[i].mul_req(
                    rhs.elements()[i],
                ),
        ensures
            r.dims_of() == rhs.dims_of(),
            r.elements().len() == self.elements().len(),
            forall|i: int|
                0 <= i < self.elements().len() ==> call_ensures(
                    <T as core::ops::Mul>::mul,
                    (self.elements()[i], rhs.elements()[i]),
                    #[trigger] r.elements()[i],
                ),
            T::obeys_mul_spec() ==> forall|i: int|
                0 <= i < self.elements().len() ==> #[trigger] r.elements()[i]
                    == self.elements()[i].mul_spec(rhs.elements()[i]),
    ;

    /// Element-wise quotient; the result takes the shape of `rhs` and the length of `self`.
    fn div(&self, rhs: &Self) -> (r: Self) where T: Copy + core::ops::Div<Output = T>, Self: Sized
        requires
            self.elements().len() <= rhs.elements().len(),
            forall|i: int|
                0 <= i < self.elements().len() ==> #[trigger] self.elements()[i].div_req(
                    rhs.elements()[i],
                ),
        ensures
            r.dims_of() == rhs.dims_of(),
            r.elements().len() == self.elements().len(),
            forall|i: int|
                0 <= i < self.elements().len() ==> call_ensures(
                    <T as core::ops::Div>::div,
                    (self.elements()[i], rhs.elements()[i]),
                    #[trigger] r.elements()[i],
                ),
            T::obeys_div_spec() ==> forall|i: int|
                0 <= i < self.elements().len() ==> #[trigger] r.elements()[i]
                    == self.elements()[i].div_spec(rhs.elements()[i]),
    ;

    /// Batched matrix product: each matrix of `self` times the matching matrix of `rhs`, with
    /// every entry accumulated onto `T::default()`.
    fn matmul(&self, rhs: &Self) -> (r: Self) where
        T: Copy + core::ops::Mul<Output = T> + core::ops::Add<Output = T> + Default,
        Self: Sized,

        requires
            matmul_compatible(self.dims_of(), rhs.dims_of()),
            dims_product(matmul_dims(self.dims_of(), rhs.dims_of())) <= usize::MAX,
            dims_product(self.dims_of()) <= self.elements().len(),
            dims_product(rhs.dims_of()) <= rhs.elements().len(),
            matmul_steps_ok(self.elements(), rhs.elements(), self.dims_of(), rhs.dims_of()),
        ensures
            r.dims_of() == matmul_dims(self.dims_of(), rhs.dims_of()),
            r.elements().len() == dims_product(r.dims_of()),
            forall|batch: int, i: int, j: int|
                is_product_entry(self.dims_of(), rhs.dims_of(), batch, i, j)
                    ==> #[trigger] product_entry_reachable(
                    r.elements(),
                    self.elements(),
                    rhs.elements(),
                    self.dims_of(),
                    rhs.dims_of(),
                    batch,
                    i,
                    j,
                ),
            T::obeys_add_spec() && T::obeys_mul_spec() ==> forall|batch: int, i: int, j: int|
                is_product_entry(self.dims_of(), rhs.dims_of(), batch, i, j)
                    ==> #[trigger] product_entry_holds(
                    r.elements(),
                    self.elements(),
                    rhs.elements(),
                    self.dims_of(),
                    rhs.dims_of(),
                    batch,
                    i,
                    j,
                ),
    ;
}

impl<T: Default + Copy, const SIZE: usize, const N: usize> TensorOps<T> for Tensor<T, SIZE, N> {
    open spec fn dims_of(&self) -> Seq<usize> {
        self.dims()
    }

    open spec fn elements(&self) -> Seq<T> {
        self@
    }

    fn shape(&self) -> (r: &[usize]) {
        &self.shape
    }

    fn strides(&self) -> (r: &[usize]) {
        proof {
            use_type_invariant(self);
        }
        &self.strides
    }

    fn len(&self) -> (r: usize) {
        self.data.len()
    }

    fn is_empty(&self) -> (r: bool) {
        self.data.len() == 0
    }

    fn get(&self, idx: &[usize]) -> (r: Option<&T>) {
        proof {
            use_type_invariant(self);
        }
        if idx.len() != N {
            return None;
        }
        let mut idx_array = self.shape;
        let mut d: usize = 0;
        while d < N
            invariant
                d <= N,
                idx@.len() == N,
                idx_array@.len() == N,
                forall|e: int| 0 <= e < d ==> idx_array@[e] == idx@[e],
            decreases N - d,
        {
            idx_array[d] = idx[d];
            d += 1;
        }
        assert(idx_array@ =~= idx@);
        Tensor::get(self, idx_array)
    }

    fn set(&mut self, idx: &[usize], value: T) -> (r: Result<(), &'static str>) {
        proof {
            use_type_invariant(&*self);
        }
        if idx.len() != N {
            return Err("Invalid index dimension");
        }
        let offset = match self.offset_of(idx) {
            Some(offset) => offset,
            None => {
                return Err("Index out of bounds");
            },
        };
        let mut buf: Vec<T> = Vec::new();
        std::mem::swap(&mut buf, &mut self.data);
        buf.set(offset, value);
        self.data = buf;
        Ok(())
    }

    fn add(&self, rhs: &Self) -> (r: Self) where T: Copy + core::ops::Add<Output = T> {
        self.zip_with(rhs, add_elements::<T>)
    }

    fn sub(&self, rhs: &Self) -> (r: Self) where T: Copy + core::ops::Sub<Output = T> {
        self.zip_with(rhs, sub_elements::<T>)
    }

    fn mul(&self, rhs: &Self) -> (r: Self) where T: Copy + core::ops::Mul<Output = T> {
        self.zip_with(rhs, mul_elements::<T>)
    }

    fn div(&self, rhs: &Self) -> (r: Self) where T: Copy + core::ops::Div<Output = T> {
        self.zip_with(rhs, div_elements::<T>)
    }

    #[verifier::loop_isolation(false)]
    fn matmul(&self, rhs: &Self) -> (r: Self) where
        T: Copy + core::ops::Mul<Output = T> + core::ops::Add<Output = T> + Default,
     {
        proof {
            use_type_invariant(self);
            use_type_invariant(rhs);
        }
        let ghost a = self@;
        let ghost b = rhs@;
        let ghost ad = self.dims();
        let ghost bd = rhs.dims();
        proof {
            lemma_matmul_sizes(ad, bd);
            lemma_matmul_dims_positive(ad, bd);
        }
        let dim = N;
        let m = self.shape[dim - 2];
        let k = self.shape[dim - 1];
        let n = rhs.shape[dim - 1];
        let mut result_shape = self.shape;
        result_shape[dim - 2] = m;
        result_shape[dim - 1] = n;
        assert(result_shape@ =~= matmul_dims(ad, bd));
        let mut result = Self::new(result_shape);
        proof {
            use_type_invariant(&result);
        }
        let mut batch_size: usize = 1;
        let mut d: usize = 0;
        assert(ad.take(0) =~= Seq::<usize>::empty());
        while d < dim - 2
            invariant
                d <= dim - 2,
                batch_size == dims_product(ad.take(d as int)),
            decreases dim - 2 - d,
        {
            proof {
                lemma_product_take_step(ad, d as int);
            }
            batch_size = batch_size * self.shape[d];
            d += 1;
        }
        assert(ad.take((dim - 2) as int) =~= batch_dims(ad));
        assert(batch_size == batch_count(ad));
        let ghost total = (batch_size as int) * (m as int) * (n as int);
        let mut out: Vec<T> = Vec::new();
        std::mem::swap(&mut out, &mut result.data);
        let mut batch: usize = 0;
        while batch < batch_size
            invariant
                batch <= batch_size,
                out@.len() == total,
                product_prefix_done(out@, a, b, ad, bd, batch as int, 0, 0),
            decreases batch_size - batch,
        {
            let mut i: usize = 0;
            while i < m
                invariant
                    batch < batch_size,
                    i <= m,
                    out@.len() == total,
                    product_prefix_done(out@, a, b, ad, bd, batch as int, i as int, 0),
                decreases m - i,
            {
                let mut j: usize = 0;
                while j < n
                    invariant
                        batch < batch_size,
                        i < m,
                        j <= n,
                        out@.len() == total,
                        product_prefix_done(out@, a, b, ad, bd, batch as int, i as int, j as int),
                    decreases n - j,
                {
                    let ghost (bi, ii, ji) = (batch as int, i as int, j as int);
                    let ghost a_start = matrix_offset(bi, ii, 0, m as int, k as int);
                    let ghost b_start = matrix_offset(bi, 0, ji, k as int, n as int);
                    let mut sum = T::default();
                    let ghost z = sum;
                    assert(is_product_entry(ad, bd, bi, ii, ji));
                    assert(matmul_entry_steps_ok(z, a, b, ad, bd, bi, ii, ji));
                    let mut kk: usize = 0;
                    while kk < k
                        invariant
                            kk <= k,
                            dot_reachable(z, a, b, a_start, b_start, n as int, kk as nat, sum),
                        decreases k - kk,
                    {
                        proof {
                            let bs = batch_size as int;
                            lemma_matrix_offset_bound(bi, ii, kk as int, bs, m as int, k as int);
                            lemma_matrix_offset_bound(bi, kk as int, ji, bs, k as int, n as int);
                            assert(0 * (n as int) == 0);
                        }
                        let a_index = batch * m * k + i * k + kk;
                        let b_index = batch * k * n + kk * n + j;
                        assert(a_index == a_start + kk);
                        assert(b_index == b_start + (kk as int) * (n as int));
                        let prod = self.data[a_index] * rhs.data[b_index];
                        let ghost prev = sum;
                        sum = sum + prod;
                        assert(dot_reachable(
                            z,
                            a,
                            b,
                            a_start,
                            b_start,
                            n as int,
                            (kk + 1 - 1) as nat,
                            prev,
                        ));
                        kk += 1;
                    }
                    proof {
                        let bs = batch_size as int;
                        lemma_matrix_offset_bound(bi, ii, ji, bs, m as int, n as int);
                    }
                    let result_index = batch * m * n + i * n + j;
                    let ghost before = out@;
                    out.set(result_index, sum);
                    proof {
                        lemma_product_prefix_store(before, out@, a, b, ad, bd, bi, ii, ji, z);
                    }
                    j += 1;
                }
                i += 1;
            }
            batch += 1;
        }
        result.data = out;
        result
    }
}

impl<T: Copy, const SIZE: usize, const N: usize> Tensor<T, SIZE, N> {
    /// A tensor of the same shape whose elements are `f` applied to these, one by one.
    pub fn map_elements<F: Fn(T) -> T>(&self, f: F) -> (r: Self)
        requires
            forall|i: int| 0 <= i < self@.len() ==> call_requires(f, (self@[i],)),
        ensures
            r.dims() == self.dims(),
            r@.len() == self@.len(),
            forall|i: int| 0 <= i < self@.len() ==> call_ensures(f, (self@[i],), #[trigger] r@[i]),
    {
        proof {
            use_type_invariant(self);
        }
        let n = self.data.len();
        let mut data: Vec<T> = Vec::new();
        let mut i: usize = 0;
        while i < n
            invariant
                n == self@.len(),
                i <= n,
                data@.len() == i,
                forall|j: int| 0 <= j < n ==> call_requires(f, (self@[j],)),
                forall|j: int| 0 <= j < i ==> call_ensures(f, (self@[j],), #[trigger] data@[j]),
            decreases n - i,
        {
            let z = f(self.data[i]);
            data.push(z);
            i += 1;
        }
        Tensor { shape: self.shape, strides: self.strides, data }
    }

    /// Combines the elements of `self` and `rhs` pairwise with `f`, over the length of `self`;
    /// the result takes the shape of `rhs`.
    fn zip_with<F: Fn(T, T) -> T>(&self, rhs: &Self, f: F) -> (r: Self)
        requires
            self@.len() <= rhs@.len(),
            forall|i: int| 0 <= i < self@.len() ==> call_requires(f, (self@[i], rhs@[i])),
        ensures
            r.dims() == rhs.dims(),
            r@.len() == self@.len(),
            forall|i: int|
                0 <= i < self@.len() ==> call_ensures(f, (self@[i], rhs@[i]), #[trigger] r@[i]),
    {
        proof {
            use_type_invariant(rhs);
        }
        let n = self.data.len();
        let mut data: Vec<T> = Vec::new();
        let mut i: usize = 0;
        while i < n
            invariant
                n == self@.len(),
                n <= rhs@.len(),
                i <= n,
                data@.len() == i,
                forall|j: int| 0 <= j < n ==> call_requires(f, (self@[j], rhs@[j])),
                forall|j: int|
                    0 <= j < i ==> call_ensures(f, (self@[j], rhs@[j]), #[trigger] data@[j]),
            decreases n - i,
        {
            let z = f(self.data[i], rhs.data[i]);
            data.push(z);
            i += 1;
        }
        Tensor { shape: rhs.shape, strides: rhs.strides, data }
    }
}


/// `x + y` for one pair of elements.
fn add_elements<T: core::ops::Add<Output = T>>(x: T, y: T) -> (z: T)
    requires
        x.add_req(y),
    ensures
        T::obeys_add_spec() ==> z == x.add_spec(y),
        call_ensures(<T as core::ops::Add>::add, (x, y), z),
{
    x + y
}


/// `x - y` for one pair of elements.
fn sub_elements<T: core::ops::Sub<Output = T>>(x: T, y: T) -> (z: T)
    requires
        x.sub_req(y),
    ensures
        T::obeys_sub_spec() ==> z == x.sub_spec(y),
        call_ensures(<T as core::ops::Sub>::sub, (x, y), z),
{
    x - y
}


/// `x * y` for one pair of elements.
fn mul_elements<T: core::ops::Mul<Output = T>>(x: T, y: T) -> (z: T)
    requires
        x.mul_req(y),
    ensures
        T::obeys_mul_spec() ==> z == x.mul_spec(y),
        call_ensures(<T as core::ops::Mul>::mul, (x, y), z),
{
    x * y
}


/// `x / y` for one pair of elements.
fn div_elements<T: core::ops::Div<Output = T>>(x: T, y: T) -> (z: T)
    requires
        x.div_req(y),
    ensures
        T::obeys_div_spec() ==> z == x.div_spec(y),
        call_ensures(<T as core::ops::Div>::div, (x, y), z),
{
    x / y
}


/// The number of elements of a tensor of shape `shape`.
fn element_count<const N: usize>(shape: [usize; N]) -> (r: usize)
    requires
        valid_dims(shape@),
    ensures
        r == dims_product(shape@),
{
    row_major_strides(shape).1
}

/// `v` is a value that the random source (`random_element`, that is `rand::random`) returned.
pub closed spec fn is_drawn<T>(v: T) -> bool where
    rand::distributions::Standard: rand::distributions::Distribution<T>,
 {
    call_ensures(random_element::<T>, (), v)
}

/// `count` values from `random_element`, in the order they were drawn.
fn random_elements<T>(count: usize) -> (r: Vec<T>) where
    rand::distributions::Standard: rand::distributions::Distribution<T>,

    ensures
        r@.len() == count,
        forall|i: int| 0 <= i < count ==> is_drawn(#[trigger] r@[i]),
{
    let mut data: Vec<T> = Vec::new();
    let mut c: usize = 0;
    while c < count
        invariant
            c <= count,
            data@.len() == c,
            forall|i: int| 0 <= i < c ==> is_drawn(#[trigger] data@[i]),
        decreases count - c,
    {
        let v = random_element::<T>();
        data.push(v);
        c += 1;
    }
    data
}

/// One value from `rand::random`, which draws it from the thread-local generator (seeded from
/// the operating system; the call panics only if that seeding fails, which no argument can
/// cause or prevent). Nothing is claimed of the value: it depends on chance.
#[verifier::external_body]
fn random_element<T>() -> T where
    rand::distributions::Standard: rand::distributions::Distribution<T>,
 {
    rand::random::<T>()
}


/// A write through `set` followed by a read through `get`: the written position reads back the
/// value written, and every other position reads back what it held before.
pub proof fn law_set_then_get<T, const SIZE: usize, const N: usize>(
    before: Tensor<T, SIZE, N>,
    after: Tensor<T, SIZE, N>,
    idx: Seq<usize>,
    other: Seq<usize>,
    value: T,
)
    requires
        index_in_bounds(before.dims(), idx),
        flat_index(before.dims(), idx) < before@.len(),
        after.dims() == before.dims(),
        after@ == before@.update(flat_index(before.dims(), idx), value),
        index_in_bounds(before.dims(), other),
        flat_index(before.dims(), other) < before@.len(),
    ensures
        after.at(idx) == value,
        other != idx ==> after.at(other) == before.at(other),
{
    lemma_flat_index_bound(before.dims(), idx);
    lemma_flat_index_bound(before.dims(), other);
    if other != idx && flat_index(before.dims(), other) == flat_index(before.dims(), idx) {
        lemma_flat_index_injective(before.dims(), other, idx);
    }
}


/// An element-wise operation read back through `get`: when both operands have the same shape
/// and length, the result at any in-bounds index is the operation applied to the operands'
/// elements at that index.
pub proof fn law_elementwise_then_get<T, const SIZE: usize, const N: usize>(
    a: Tensor<T, SIZE, N>,
    b: Tensor<T, SIZE, N>,
    c: Tensor<T, SIZE, N>,
    op: spec_fn(T, T) -> T,
    idx: Seq<usize>,
)
    requires
        a.dims() == b.dims(),
        a@.len() == b@.len(),
        c.dims() == b.dims(),
        c@.len() == a@.len(),
        forall|i: int| 0 <= i < a@.len() ==> #[trigger] c@[i] == op(a@[i], b@[i]),
        index_in_bounds(a.dims(), idx),
        flat_index(a.dims(), idx) < a@.len(),
    ensures
        c.at(idx) == op(a.at(idx), b.at(idx)),
{
    lemma_flat_index_bound(a.dims(), idx);
}


/// Every element that `get` can read from a tensor made by `rand` is a value that the random
/// source returned: for a tensor with `rand`'s guarantees (the requested shape, one stored
/// element per position, each one drawn), any in-bounds index reads a stored, drawn value.
pub proof fn law_rand_reads_drawn_values<T, const SIZE: usize, const N: usize>(
    t: Tensor<T, SIZE, N>,
    shape: Seq<usize>,
    idx: Seq<usize>,
) where rand::distributions::Standard: rand::distributions::Distribution<T>
    requires
        t.dims() == shape,
        t@.len() == dims_product(shape),
        forall|i: int| 0 <= i < t@.len() ==> is_drawn(#[trigger] t@[i]),
        index_in_bounds(shape, idx),
    ensures
        0 <= flat_index(shape, idx) < t@.len(),
        is_drawn(t.at(idx)),
{
    lemma_flat_index_bound(shape, idx);
}

} // verus!
