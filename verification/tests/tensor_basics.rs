use diffgeom::point::Point;
use diffgeom::tensor::{CoordIterator, Tensor};
use diffgeom::variance::IndexKind;
use diffgeom::TensorError;

fn p2(x: i64, y: i64) -> Point {
    Point::new(vec![x, y])
}

#[test]
fn point_basics() {
    let p = Point::from_slice(&[3, -4, 5]);
    assert_eq!(p.dimension(), 3);
    assert_eq!(p.get(0), 3);
    assert_eq!(p.get(1), -4);
    assert_eq!(p.get(2), 5);
    assert_eq!(p.coords_array(), &vec![3, -4, 5]);
}

#[test]
fn point_equality_and_perturbation() {
    let a = Point::new(vec![1, 2]);
    let mut b = a.clone();
    assert!(a == b);
    b.set(1, 7);
    assert!(a != b);
    assert_eq!(b.get(1), 7);
    assert_eq!(a.get(1), 2);
}

#[test]
fn zero_tensor_has_all_zero_components() {
    let t = Tensor::zero(p2(0, 0), vec![IndexKind::Contravariant, IndexKind::Covariant]);
    assert_eq!(t.get_rank(), 2);
    assert_eq!(t.get_num_coords(), 4);
    for i in 0..4 {
        assert_eq!(t.get_flat(i).unwrap(), 0);
    }
}

#[test]
fn new_rejects_wrong_component_count() {
    let r = Tensor::new(p2(0, 0), vec![IndexKind::Covariant], vec![1, 2, 3]);
    assert_eq!(r.err().unwrap(), TensorError::ShapeMismatch);
    let ok = Tensor::new(p2(0, 0), vec![IndexKind::Covariant], vec![1, 2]);
    assert!(ok.is_ok());
}

#[test]
fn new_rejects_zero_dimension() {
    let r = Tensor::new(Point::new(vec![]), vec![], vec![1]);
    assert_eq!(r.err().unwrap(), TensorError::ShapeMismatch);
}

#[test]
fn components_are_stored_row_major() {
    // Rank 2 over dimension 2: the flat order is (0,0), (0,1), (1,0), (1,1).
    let t = Tensor::from_slice(
        p2(0, 0),
        vec![IndexKind::Contravariant, IndexKind::Covariant],
        &[10, 11, 12, 13],
    )
    .unwrap();
    assert_eq!(t.get(&[0, 0]).unwrap(), 10);
    assert_eq!(t.get(&[0, 1]).unwrap(), 11);
    assert_eq!(t.get(&[1, 0]).unwrap(), 12);
    assert_eq!(t.get(&[1, 1]).unwrap(), 13);
    assert_eq!(t.get_coord(&[1, 0]).unwrap(), 2);
}

#[test]
fn out_of_range_indices_are_rejected() {
    let t = Tensor::zero(p2(0, 0), vec![IndexKind::Covariant]);
    assert_eq!(t.get(&[2]).err().unwrap(), TensorError::IndexOutOfBounds);
    assert_eq!(t.get(&[0, 0]).err().unwrap(), TensorError::IndexOutOfBounds);
    assert_eq!(t.get_flat(2).err().unwrap(), TensorError::IndexOutOfBounds);
    let mut u = t;
    assert_eq!(u.set(&[5], 1).err().unwrap(), TensorError::IndexOutOfBounds);
    assert_eq!(u.get(&[1]).unwrap(), 0);
}

#[test]
fn set_then_get_round_trips() {
    let mut t = Tensor::zero(p2(1, 2), vec![IndexKind::Contravariant, IndexKind::Contravariant]);
    t.set(&[1, 0], 42).unwrap();
    assert_eq!(t.get(&[1, 0]).unwrap(), 42);
    assert_eq!(t.get_flat(2).unwrap(), 42);
    t.set_flat(3, -7).unwrap();
    assert_eq!(t.get(&[1, 1]).unwrap(), -7);
}

#[test]
fn scalar_tensor_has_one_component() {
    let t = Tensor::from_slice(p2(0, 0), vec![], &[99]).unwrap();
    assert_eq!(t.get_rank(), 0);
    assert_eq!(t.get_num_coords(), 1);
    assert_eq!(t.get(&[]).unwrap(), 99);
}

#[test]
fn coord_iterator_walks_canonical_order() {
    let mut it = CoordIterator::new(2, 2);
    assert_eq!(it.next().unwrap(), vec![0, 0]);
    assert_eq!(it.next().unwrap(), vec![0, 1]);
    assert_eq!(it.next().unwrap(), vec![1, 0]);
    assert_eq!(it.next().unwrap(), vec![1, 1]);
    assert!(it.next().is_none());
    assert!(it.next().is_none());
}

#[test]
fn coord_iterator_is_restartable() {
    let t = Tensor::zero(p2(0, 0), vec![IndexKind::Covariant]);
    let mut a = t.iter_coords();
    assert_eq!(a.next().unwrap(), vec![0]);
    let mut b = t.iter_coords();
    assert_eq!(b.next().unwrap(), vec![0]);
    assert_eq!(a.next().unwrap(), vec![1]);
    assert_eq!(b.next().unwrap(), vec![1]);
}

#[test]
fn coord_iterator_rank_zero_yields_empty_once() {
    let mut it = CoordIterator::new(3, 0);
    assert_eq!(it.next().unwrap(), Vec::<usize>::new());
    assert!(it.next().is_none());
}

#[test]
fn flat_helpers_agree() {
    assert_eq!(diffgeom::indexing::flat_offset(&[1, 2, 0], 3), Some(15));
    assert_eq!(diffgeom::indexing::unflat_index(15, 3, 3), vec![1, 2, 0]);
    assert_eq!(diffgeom::indexing::flat_offset(&[3], 3), None);
    assert_eq!(diffgeom::indexing::try_num_coords(3, 4), Some(81));
    assert_eq!(diffgeom::indexing::try_num_coords(2, 64), None);
}

#[test]
fn point_accessors_on_tensor() {
    let mut t = Tensor::zero(p2(5, 6), vec![IndexKind::Covariant]);
    assert!(*t.get_point() == p2(5, 6));
    assert_eq!(t.dimension(), 2);
    t.set_point(p2(7, 8));
    assert!(*t.get_point() == p2(7, 8));
    assert_eq!(t.get_variance(), &vec![IndexKind::Covariant]);
    assert_eq!(t.coords_array(), &vec![0, 0]);
}
