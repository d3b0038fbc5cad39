//! The arithmetic operators `+ - * /` on tensors, element by element.

use vstd::prelude::*;
use vstd::std_specs::ops::{
    AddSpec, AddSpecImpl, DivSpec, DivSpecImpl, MulSpec, MulSpecImpl, SubSpec, SubSpecImpl,
};
use crate::tensor::{Tensor, TensorOps};

verus! {

impl<T, const SIZE: usize, const N: usize> core::ops::Add<Tensor<T, SIZE, N>> for Tensor<
    T,
    SIZE,
    N,
> where T: Default + Copy + core::ops::Add<Output = T> + Sync + Send {
    type Output = Tensor<T, SIZE, N>;

    /// Same as `TensorOps::add`.
    fn add(self, rhs: Tensor<T, SIZE, N>) -> (r: Self::Output)
        ensures
            r.dims() == rhs.dims(),
            r@.len() == self@.len(),
            forall|i: int|
                0 <= i < self@.len() ==> call_ensures(
                    <T as core::ops::Add>::add,
                    (self@[i], rhs@[i]),
                    #[trigger] r@[i],
                ),
            T::obeys_add_spec() ==> forall|i: int|
                0 <= i < self@.len() ==> #[trigger] r@[i] == self@[i].add_spec(rhs@[i]),
    {
        TensorOps::add(&self, &rhs)
    }
}

impl<T, const SIZE: usize, const N: usize> AddSpecImpl<Tensor<T, SIZE, N>> for Tensor<
    T,
    SIZE,
    N,
> where T: Default + Copy + core::ops::Add<Output = T> + Sync + Send {
    /// The result is described by the `ensures` of `add`, not by `add_spec`.
    open spec fn obeys_add_spec() -> bool {
        false
    }

    /// The operands satisfy the precondition of `TensorOps::add`.
    open spec fn add_req(self, rhs: Tensor<T, SIZE, N>) -> bool {
        &&& self@.len() <= rhs@.len()
        &&& forall|i: int| 0 <= i < self@.len() ==> #[trigger] self@[i].add_req(rhs@[i])
    }

    open spec fn add_spec(self, rhs: Tensor<T, SIZE, N>) -> Self::Output {
        arbitrary()
    }
}

impl<T, const SIZE: usize, const N: usize> core::ops::Sub<Tensor<T, SIZE, N>> for Tensor<
    T,
    SIZE,
    N,
> where T: Default + Copy + core::ops::Sub<Output = T> + Sync + Send {
    type Output = Tensor<T, SIZE, N>;

    /// Same as `TensorOps::sub`.
    fn sub(self, rhs: Tensor<T, SIZE, N>) -> (r: Self::Output)
        ensures
            r.dims() == rhs.dims(),
            r@.len() == self@.len(),
            forall|i: int|
                0 <= i < self@.len() ==> call_ensures(
                    <T as core::ops::Sub>::sub,
                    (self@[i], rhs@[i]),
                    #[trigger] r@[i],
                ),
            T::obeys_sub_spec() ==> forall|i: int|
                0 <= i < self@.len() ==> #[trigger] r@[i] == self@[i].sub_spec(rhs@[i]),
    {
        TensorOps::sub(&self, &rhs)
    }
}

impl<T, const SIZE: usize, const N: usize> SubSpecImpl<Tensor<T, SIZE, N>> for Tensor<
    T,
    SIZE,
    N,
> where T: Default + Copy + core::ops::Sub<Output = T> + Sync + Send {
    /// The result is described by the `ensures` of `sub`, not by `sub_spec`.
    open spec fn obeys_sub_spec() -> bool {
        false
    }

    /// The operands satisfy the precondition of `TensorOps::sub`.
    open spec fn sub_req(self, rhs: Tensor<T, SIZE, N>) -> bool {
        &&& self@.len() <= rhs@.len()
        &&& forall|i: int| 0 <= i < self@.len() ==> #[trigger] self@[i].sub_req(rhs@[i])
    }

    open spec fn sub_spec(self, rhs: Tensor<T, SIZE, N>) -> Self::Output {
        arbitrary()
    }
}

impl<T, const SIZE: usize, const N: usize> core::ops::Mul<Tensor<T, SIZE, N>> for Tensor<
    T,
    SIZE,
    N,
> where T: Default + Copy + core::ops::Mul<Output = T> + Sync + Send {
    type Output = Tensor<T, SIZE, N>;

    /// Same as `TensorOps::mul`.
    fn mul(self, rhs: Tensor<T, SIZE, N>) -> (r: Self::Output)
        ensures
            r.dims() == rhs.dims(),
            r@.len() == self@.len(),
            forall|i: int|
                0 <= i < self@.len() ==> call_ensures(
                    <T as core::ops::Mul>::mul,
                    (self@[i], rhs@[i]),
                    #[trigger] r@[i],
                ),
            T::obeys_mul_spec() ==> forall|i: int|
                0 <= i < self@.len() ==> #[trigger] r@[i] == self@[i].mul_spec(rhs@[i]),
    {
        TensorOps::mul(&self, &rhs)
    }
}

impl<T, const SIZE: usize, const N: usize> MulSpecImpl<Tensor<T, SIZE, N>> for Tensor<
    T,
    SIZE,
    N,
> where T: Default + Copy + core::ops::Mul<Output = T> + Sync + Send {
    /// The result is described by the `ensures` of `mul`, not by `mul_spec`.
    open spec fn obeys_mul_spec() -> bool {
        false
    }

    /// The operands satisfy the precondition of `TensorOps::mul`.
    open spec fn mul_req(self, rhs: Tensor<T, SIZE, N>) -> bool {
        &&& self@.len() <= rhs@.len()
        &&& forall|i: int| 0 <= i < self@.len() ==> #[trigger] self@[i].mul_req(rhs@[i])
    }

    open spec fn mul_spec(self, rhs: Tensor<T, SIZE, N>) -> Self::Output {
        arbitrary()
    }
}

impl<T, const SIZE: usize, const N: usize> core::ops::Div<Tensor<T, SIZE, N>> for Tensor<
    T,
    SIZE,
    N,
> where T: Default + Copy + core::ops::Div<Output = T> + Sync + Send {
    type Output = Tensor<T, SIZE, N>;

    /// Same as `TensorOps::div`.
    fn div(self, rhs: Tensor<T, SIZE, N>) -> (r: Self::Output)
        ensures
            r.dims() == rhs.dims(),
            r@.len() == self@.len(),
            forall|i: int|
                0 <= i < self@.len() ==> call_ensures(
                    <T as core::ops::Div>::div,
                    (self@[i], rhs@[i]),
                    #[trigger] r@[i],
                ),
            T::obeys_div_spec() ==> forall|i: int|
                0 <= i < self@.len() ==> #[trigger] r@[i] == self@[i].div_spec(rhs@[i]),
    {
        TensorOps::div(&self, &rhs)
    }
}

impl<T, const SIZE: usize, const N: usize> DivSpecImpl<Tensor<T, SIZE, N>> for Tensor<
    T,
    SIZE,
    N,
> where T: Default + Copy + core::ops::Div<Output = T> + Sync + Send {
    /// The result is described by the `ensures` of `div`, not by `div_spec`.
    open spec fn obeys_div_spec() -> bool {
        false
    }

    /// The operands satisfy the precondition of `TensorOps::div`.
    open spec fn div_req(self, rhs: Tensor<T, SIZE, N>) -> bool {
        &&& self@.len() <= rhs@.len()
        &&& forall|i: int| 0 <= i < self@.len() ==> #[trigger] self@[i].div_req(rhs@[i])
    }

    open spec fn div_spec(self, rhs: Tensor<T, SIZE, N>) -> Self::Output {
        arbitrary()
    }
}

} // verus!
