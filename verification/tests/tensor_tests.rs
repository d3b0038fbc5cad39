use neural_tensor::tensor::{Tensor, TensorOps};

#[test]
fn test_tensor_creation() {
    let t1 = Tensor::<f32, 5, 1>::new([5]);
    assert_eq!(t1.shape(), &[5]);
    assert_eq!(t1.strides(), &[1]);

    let t2 = Tensor::<f32, 10, 2>::new([2, 5]);
    assert_eq!(t2.shape(), &[2, 5]);
    assert_eq!(t2.strides(), &[5, 1]);

    let t3 = Tensor::<f32, 24, 3>::new([2, 3, 4]);
    assert_eq!(t3.shape(), &[2, 3, 4]);
    assert_eq!(t3.strides(), &[12, 4, 1]);
}

#[test]
fn test_ui() {
    let mut t = Tensor::<f32, 5, 1>::new([5]);
    t.set_data(&[0.0, 1.0, 2.0, 3.0, 4.0]);

    assert_eq!(t.get([3]), Some(&3.0));
    assert_eq!(t.get([5]), None);

    t.set(&[2], 10.0).unwrap();
    assert_eq!(t.get([2]), Some(&10.0));

    assert!(t.set(&[5], 1.0).is_err());
    assert!(t.set(&[0, 0], 1.0).is_err());
}

#[test]
fn test_elementwise_ops() {
    let mut a = Tensor::<f32, 4, 2>::new([2, 2]);
    let mut b = Tensor::<f32, 4, 2>::new([2, 2]);

    a.set_data(&[1.0, 2.0, 3.0, 4.0]);
    b.set_data(&[1.0, 1.0, 1.0, 1.0]);

    let c = a.add(&b);
    let d = a.sub(&b);
    let e = a.mul(&b);
    let f = a.div(&b);

    assert_eq!(c.get([0, 0]), Some(&2.0));
    assert_eq!(d.get([0, 0]), Some(&0.0));
    assert_eq!(e.get([0, 0]), Some(&1.0));
    assert_eq!(f.get([0, 0]), Some(&1.0));
}

#[test]
fn test_tensor_matmul() {
    let mut a = Tensor::<f32, 6, 2>::new([2, 3]);
    let mut b = Tensor::<f32, 6, 2>::new([3, 2]);

    a.set_data(&[1.0, 2.0, 3.0, 4.0, 5.0, 6.0]);
    b.set_data(&[1.0, 2.0, 3.0, 4.0, 5.0, 6.0]);

    let c = a.matmul(&b);

    assert_eq!(c.get([0, 0]), Some(&22.0));
    assert_eq!(c.get([0, 1]), Some(&28.0));
    assert_eq!(c.get([1, 0]), Some(&49.0));
    assert_eq!(c.get([1, 1]), Some(&64.0));
}
