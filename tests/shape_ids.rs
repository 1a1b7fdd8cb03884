use dfdx::ids::UniqueIds;
use dfdx::shape::Shape;
use dfdx::tensor::Tensor;

#[test]
fn shape_counts_elements() {
    let s = Shape::new(vec![2, 3, 4]).unwrap();
    assert_eq!(s.rank(), 3);
    assert_eq!(s.num_elements(), 24);
    assert_eq!(s.extent(1), 3);
}

#[test]
fn rank_zero_shape_holds_one_element() {
    let s = Shape::new(vec![]).unwrap();
    assert_eq!(s.rank(), 0);
    assert_eq!(s.num_elements(), 1);
}

#[test]
fn rank_above_four_is_refused() {
    assert!(Shape::new(vec![1, 1, 1, 1, 1]).is_none());
    assert!(Shape::new(vec![1, 2, 3, 4]).is_some());
}

#[test]
fn element_count_overflow_is_refused() {
    assert!(Shape::new(vec![usize::MAX, 2]).is_none());
}

#[test]
fn zero_extent_gives_empty_shape_despite_large_extents() {
    let s = Shape::new(vec![usize::MAX, usize::MAX, 0]).unwrap();
    assert_eq!(s.num_elements(), 0);
}

#[test]
fn ids_are_pairwise_distinct_and_increasing() {
    let mut ids = UniqueIds::new();
    let mut seen: Vec<usize> = Vec::new();
    for _ in 0..100 {
        let t = Tensor::filled(Shape::new(vec![2]).unwrap(), 0.0f32, &mut ids);
        seen.push(t.id());
    }
    for i in 0..seen.len() {
        for j in (i + 1)..seen.len() {
            assert_ne!(seen[i], seen[j]);
            assert!(seen[i] < seen[j]);
        }
    }
}

#[test]
fn next_id_counts_up() {
    let mut ids = UniqueIds::new();
    assert_eq!(ids.next_id(), 0);
    assert_eq!(ids.next_id(), 1);
    assert_eq!(ids.next_id(), 2);
}

#[test]
fn filled_tensor_has_shape_and_value() {
    let mut ids = UniqueIds::new();
    let t = Tensor::filled(Shape::new(vec![2, 3]).unwrap(), 1.0f32, &mut ids);
    assert_eq!(t.data(), &vec![1.0f32; 6]);
    assert_eq!(t.shape().num_elements(), 6);
}

#[test]
fn from_vec_checks_length() {
    let mut ids = UniqueIds::new();
    let bad = Tensor::from_vec(Shape::new(vec![2, 2]).unwrap(), vec![1.0f32, 2.0], &mut ids);
    assert!(bad.is_none());
    let good = Tensor::from_vec(Shape::new(vec![2, 2]).unwrap(), vec![1.0f32, 2.0, 3.0, 4.0], &mut ids)
        .unwrap();
    assert_eq!(good.id(), 0);
    assert_eq!(good.data(), &vec![1.0f32, 2.0, 3.0, 4.0]);
}

#[test]
fn apply_keeps_shape_and_issues_fresh_id() {
    let mut ids = UniqueIds::new();
    let x = Tensor::from_vec(Shape::new(vec![3, 1]).unwrap(), vec![-1.0f32, 0.5, 2.0], &mut ids).unwrap();
    let y = x.apply(|v: f32| if v > 0.0 { v } else { 0.0 }, &mut ids);
    assert_eq!(y.shape().rank(), 2);
    assert_eq!(y.shape().extent(0), 3);
    assert_eq!(y.shape().extent(1), 1);
    assert_eq!(y.data(), &vec![0.0f32, 0.5, 2.0]);
    assert_ne!(y.id(), x.id());
}

#[test]
fn update_with_zero_gradient_is_bitwise_identity() {
    let mut ids = UniqueIds::new();
    let vals = vec![1.5f32, -0.0, 3.25e-7, f32::MAX];
    let mut x = Tensor::from_vec(Shape::new(vec![4]).unwrap(), vals.clone(), &mut ids).unwrap();
    x.update_with(&vec![0.0f32; 4], |a: f32, g: f32| a - g);
    for i in 0..4 {
        assert_eq!(x.data()[i].to_bits(), vals[i].to_bits());
    }
}

#[test]
fn update_subtracts_gradient() {
    let mut ids = UniqueIds::new();
    let mut x = Tensor::from_vec(Shape::new(vec![3]).unwrap(), vec![1.0f32, 2.0, 3.0], &mut ids).unwrap();
    let id = x.id();
    x.update_with(&vec![0.5f32, 1.0, -1.0], |a: f32, g: f32| a - g);
    assert_eq!(x.data(), &vec![0.5f32, 1.0, 4.0]);
    assert_eq!(x.id(), id);
}

#[test]
fn set_overwrites_one_element() {
    let mut ids = UniqueIds::new();
    let mut x = Tensor::filled(Shape::new(vec![2, 2]).unwrap(), 0.0f32, &mut ids);
    let id = x.id();
    x.set(2, 7.5);
    assert_eq!(x.data(), &vec![0.0f32, 0.0, 7.5, 0.0]);
    assert_eq!(x.id(), id);
    assert_eq!(x.shape().num_elements(), 4);
}
