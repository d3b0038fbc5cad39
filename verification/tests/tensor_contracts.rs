use neural_tensor::tensor::{Tensor, TensorOps};

#[test]
fn new_fills_with_default_and_counts_elements() {
    let t = Tensor::<i32, 24, 3>::new([2, 3, 4]);
    assert_eq!(TensorOps::len(&t), 24);
    assert!(!TensorOps::is_empty(&t));
    for i in 0..2 {
        for j in 0..3 {
            for k in 0..4 {
                assert_eq!(t.get([i, j, k]), Some(&0));
            }
        }
    }
}

#[test]
fn strides_of_four_dimensions() {
    let t = Tensor::<u8, 120, 4>::new([2, 3, 4, 5]);
    assert_eq!(t.strides(), &[60, 20, 5, 1]);
    assert_eq!(TensorOps::strides(&t), &[60, 20, 5, 1][..]);
    assert_eq!(TensorOps::shape(&t), &[2, 3, 4, 5][..]);
}

#[test]
fn scalar_tensor_has_one_element() {
    let mut t = Tensor::<i64, 1, 0>::new([]);
    assert_eq!(TensorOps::len(&t), 1);
    assert_eq!(t.get([]), Some(&0));
    t.set(&[], 7).unwrap();
    assert_eq!(t.get([]), Some(&7));
}

#[test]
fn get_reads_row_major_positions() {
    let mut t = Tensor::<i32, 6, 2>::new([2, 3]);
    t.set_data(&[10, 11, 12, 20, 21, 22]);
    assert_eq!(t.get([0, 2]), Some(&12));
    assert_eq!(t.get([1, 0]), Some(&20));
    assert_eq!(t.get([1, 3]), None);
    assert_eq!(t.get([2, 0]), None);
    assert_eq!(TensorOps::get(&t, &[1, 1]), Some(&21));
    assert_eq!(TensorOps::get(&t, &[1]), None);
    assert_eq!(TensorOps::get(&t, &[1, 1, 0]), None);
    assert_eq!(TensorOps::get(&t, &[0, 5]), None);
}

#[test]
fn set_then_get_changes_only_the_written_position() {
    let mut t = Tensor::<i32, 6, 2>::new([2, 3]);
    t.set_data(&[1, 2, 3, 4, 5, 6]);
    assert_eq!(t.set(&[1, 2], 60), Ok(()));
    assert_eq!(t.get([1, 2]), Some(&60));
    assert_eq!(t.get([0, 0]), Some(&1));
    assert_eq!(t.get([0, 2]), Some(&3));
    assert_eq!(t.get([1, 1]), Some(&5));
}

#[test]
fn set_reports_each_error() {
    let mut t = Tensor::<i32, 6, 2>::new([2, 3]);
    t.set_data(&[1, 2, 3, 4, 5, 6]);
    assert_eq!(t.set(&[0], 9), Err("Invalid index dimension"));
    assert_eq!(t.set(&[0, 0, 0], 9), Err("Invalid index dimension"));
    assert_eq!(t.set(&[0, 3], 9), Err("Index out of bounds"));
    assert_eq!(t.set(&[2, 0], 9), Err("Index out of bounds"));
    for i in 0..2 {
        for j in 0..3 {
            assert_eq!(t.get([i, j]), Some(&((i * 3 + j + 1) as i32)));
        }
    }
}

#[test]
fn elementwise_integer_ops_and_result_shape() {
    let mut a = Tensor::<i32, 6, 2>::new([2, 3]);
    let mut b = Tensor::<i32, 6, 2>::new([3, 2]);
    a.set_data(&[10, 20, 30, 40, 50, 60]);
    b.set_data(&[1, 2, 3, 4, 5, 6]);
    let c = a.add(&b);
    assert_eq!(c.shape(), &[3, 2]);
    assert_eq!(c.strides(), &[2, 1]);
    assert_eq!(c.get([2, 1]), Some(&66));
    let d = a.sub(&b);
    assert_eq!(d.get([0, 1]), Some(&18));
    let e = a.mul(&b);
    assert_eq!(e.get([1, 0]), Some(&90));
    let f = a.div(&b);
    assert_eq!(f.get([2, 0]), Some(&10));
    assert_eq!(f.get([1, 1]), Some(&10));
}

#[test]
fn elementwise_takes_length_of_left_operand() {
    let mut a = Tensor::<i32, 3, 1>::new([2]);
    let mut b = Tensor::<i32, 3, 1>::new([3]);
    a.set_data(&[1, 2]);
    b.set_data(&[10, 20, 30]);
    let c = a.add(&b);
    assert_eq!(c.shape(), &[3]);
    assert_eq!(TensorOps::len(&c), 2);
    assert_eq!(c.get([1]), Some(&22));
}

#[test]
fn operators_match_trait_methods() {
    let mut a = Tensor::<i64, 4, 2>::new([2, 2]);
    let mut b = Tensor::<i64, 4, 2>::new([2, 2]);
    a.set_data(&[8, 6, 4, 2]);
    b.set_data(&[2, 3, 4, 1]);
    let s = a.clone() + b.clone();
    let d = a.clone() - b.clone();
    let m = a.clone() * b.clone();
    let q = a.clone() / b.clone();
    assert_eq!(s.get([0, 1]), Some(&9));
    assert_eq!(d.get([1, 1]), Some(&1));
    assert_eq!(m.get([1, 0]), Some(&16));
    assert_eq!(q.get([0, 0]), Some(&4));
}

#[test]
fn integer_matmul_two_by_three_times_three_by_two() {
    let mut a = Tensor::<i32, 6, 2>::new([2, 3]);
    let mut b = Tensor::<i32, 6, 2>::new([3, 2]);
    a.set_data(&[1, 2, 3, 4, 5, 6]);
    b.set_data(&[7, 8, 9, 10, 11, 12]);
    let c = a.matmul(&b);
    assert_eq!(c.shape(), &[2, 2]);
    assert_eq!(c.get([0, 0]), Some(&58));
    assert_eq!(c.get([0, 1]), Some(&64));
    assert_eq!(c.get([1, 0]), Some(&139));
    assert_eq!(c.get([1, 1]), Some(&154));
}

#[test]
fn batched_matmul_multiplies_matching_matrices() {
    let mut a = Tensor::<i32, 12, 3>::new([2, 2, 2]);
    let mut b = Tensor::<i32, 12, 3>::new([2, 2, 3]);
    a.set_data(&[1, 0, 0, 1, 2, 1, 0, 3]);
    b.set_data(&[1, 2, 3, 4, 5, 6, 1, 1, 1, 2, 2, 2]);
    let c = a.matmul(&b);
    assert_eq!(c.shape(), &[2, 2, 3]);
    assert_eq!(c.strides(), &[6, 3, 1]);
    // first batch: identity times b0
    assert_eq!(c.get([0, 0, 0]), Some(&1));
    assert_eq!(c.get([0, 1, 2]), Some(&6));
    // second batch: [[2, 1], [0, 3]] times [[1, 1, 1], [2, 2, 2]]
    assert_eq!(c.get([1, 0, 0]), Some(&4));
    assert_eq!(c.get([1, 1, 2]), Some(&6));
}

#[test]
fn matmul_with_single_inner_dimension() {
    let mut a = Tensor::<i32, 3, 2>::new([3, 1]);
    let mut b = Tensor::<i32, 3, 2>::new([1, 2]);
    a.set_data(&[1, 2, 3]);
    b.set_data(&[4, 5]);
    let c = a.matmul(&b);
    assert_eq!(c.shape(), &[3, 2]);
    assert_eq!(TensorOps::len(&c), 6);
    assert_eq!(c.get([2, 1]), Some(&15));
    assert_eq!(c.get([0, 0]), Some(&4));
}

#[test]
fn map_elements_keeps_shape() {
    let mut t = Tensor::<i32, 6, 2>::new([3, 2]);
    t.set_data(&[1, 2, 3, 4, 5, 6]);
    let u = t.map_elements(|x| x * x);
    assert_eq!(u.shape(), &[3, 2]);
    assert_eq!(u.get([2, 1]), Some(&36));
    assert_eq!(u.get([0, 1]), Some(&4));
}

#[test]
fn clone_keeps_shape_and_elements() {
    let mut t = Tensor::<u16, 4, 2>::new([1, 4]);
    t.set_data(&[9, 8, 7, 6]);
    let mut u = t.clone();
    assert_eq!(u.shape(), &[1, 4]);
    assert_eq!(u.get([0, 2]), Some(&7));
    u.set(&[0, 2], 1).unwrap();
    assert_eq!(t.get([0, 2]), Some(&7));
    assert_eq!(u.get([0, 2]), Some(&1));
}

#[test]
fn rand_has_requested_shape() {
    let t = Tensor::<u32, 30, 3>::rand([2, 3, 5]);
    assert_eq!(t.shape(), &[2, 3, 5]);
    assert_eq!(t.strides(), &[15, 5, 1]);
    assert_eq!(TensorOps::len(&t), 30);
    assert!(t.get([1, 2, 4]).is_some());
}

#[test]
fn set_data_replaces_all_elements() {
    let mut t = Tensor::<i8, 4, 2>::new([2, 2]);
    t.set_data(&[-1, -2, -3, -4]);
    assert_eq!(t.get([0, 0]), Some(&-1));
    assert_eq!(t.get([1, 1]), Some(&-4));
    assert_eq!(t.shape(), &[2, 2]);
}

#[test]
fn from_data_places_elements_in_storage_order() {
    let t = Tensor::<i32, 6, 2>::from_data([2, 3], vec![1, 2, 3, 4, 5, 6]);
    assert_eq!(t.shape(), &[2, 3]);
    assert_eq!(t.strides(), &[3, 1]);
    assert_eq!(t.get([0, 0]), Some(&1));
    assert_eq!(t.get([0, 2]), Some(&3));
    assert_eq!(t.get([1, 0]), Some(&4));
    assert_eq!(t.get([1, 2]), Some(&6));
}

#[test]
fn identity_matrices_leave_a_matrix_unchanged() {
    let a = Tensor::<i64, 6, 2>::from_data([2, 3], vec![5, -1, 7, 0, 12, -8]);
    let e3 = Tensor::<i64, 6, 2>::from_data([3, 3], vec![1, 0, 0, 0, 1, 0, 0, 0, 1]);
    let e2 = Tensor::<i64, 6, 2>::from_data([2, 2], vec![1, 0, 0, 1]);
    let right = a.matmul(&e3);
    let left = e2.matmul(&a);
    assert_eq!(right.shape(), &[2, 3]);
    assert_eq!(left.shape(), &[2, 3]);
    for i in 0..2 {
        for j in 0..3 {
            assert_eq!(right.get([i, j]), a.get([i, j]));
            assert_eq!(left.get([i, j]), a.get([i, j]));
        }
    }
}
