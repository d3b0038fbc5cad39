use neural_tensor::tensor::Tensor;

#[test]
fn test_exp() {
    let mut t = Tensor::<f64, 3, 1>::new([3]);
    t.set_data(&[0.0, 1.0, 2.0]);
    let res = t.map_elements(|x: f64| x.exp());
    assert!((res.get([0]).unwrap() - 1.0).abs() < 1e-10);
    assert!((res.get([1]).unwrap() - std::f64::consts::E).abs() < 1e-10);
    assert!((res.get([2]).unwrap() - std::f64::consts::E.powi(2)).abs() < 1e-10);
}

#[test]
fn test_ln() {
    let mut t = Tensor::<f64, 3, 1>::new([3]);
    t.set_data(&[1.0, std::f64::consts::E, std::f64::consts::E.powi(2)]);
    let res = t.map_elements(|x: f64| x.ln());
    assert!((res.get([0]).unwrap() - 0.0).abs() < 1e-10);
    assert!((res.get([1]).unwrap() - 1.0).abs() < 1e-10);
    assert!((res.get([2]).unwrap() - 2.0).abs() < 1e-10);
}

#[test]
fn test_sin_cos() {
    let mut t = Tensor::<f64, 2, 1>::new([2]);
    t.set_data(&[0.0, std::f64::consts::FRAC_PI_2]);
    let sin_res = t.map_elements(|x: f64| x.sin());
    let cos_res = t.map_elements(|x: f64| x.cos());
    assert!((sin_res.get([0]).unwrap() - 0.0).abs() < 1e-10);
    assert!((sin_res.get([1]).unwrap() - 1.0).abs() < 1e-10);
    assert!((cos_res.get([0]).unwrap() - 1.0).abs() < 1e-10);
    assert!((cos_res.get([1]).unwrap() - 0.0).abs() < 1e-10);
}

#[test]
fn map_elements_on_floats_keeps_shape() {
    let mut t = Tensor::<f32, 4, 2>::new([2, 2]);
    t.set_data(&[1.0, 2.0, 3.0, 4.0]);
    let res = t.map_elements(|x: f32| x * 0.5);
    assert_eq!(res.shape(), &[2, 2]);
    assert_eq!(res.get([1, 1]), Some(&2.0));
}
