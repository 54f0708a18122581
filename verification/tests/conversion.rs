use diffgeom::point::Point;
use diffgeom::tensor::Tensor;
use diffgeom::variance::IndexKind::{Contravariant, Covariant};
use diffgeom::TensorError;

fn source_point() -> Point {
    Point::new(vec![1, 2])
}

fn target_point() -> Point {
    Point::new(vec![3, 5])
}

fn matrix_at(p: Point, comps: &[i64]) -> Tensor {
    Tensor::from_slice(p, vec![Contravariant, Covariant], comps).unwrap()
}

#[test]
fn identity_jacobian_keeps_components() {
    let v = Tensor::from_slice(source_point(), vec![Contravariant], &[4, -9]).unwrap();
    let jac = Tensor::unit(target_point());
    let inv = Tensor::unit(target_point());
    let c = v.convert(&jac, &inv).unwrap();
    assert_eq!(c.coords_array(), &vec![4, -9]);
    assert!(*c.get_point() == target_point());
    assert_eq!(c.get_variance(), &vec![Contravariant]);
}

#[test]
fn contravariant_components_transform_by_the_jacobian() {
    // Jacobian [[2, 1], [1, 1]], a linear map with the exact inverse
    // [[1, -1], [-1, 2]].
    let v = Tensor::from_slice(source_point(), vec![Contravariant], &[3, 4]).unwrap();
    let jac = matrix_at(target_point(), &[2, 1, 1, 1]);
    let inv = matrix_at(target_point(), &[1, -1, -1, 2]);
    let c = v.convert(&jac, &inv).unwrap();
    // c[i] = sum_j jac[i][j] * v[j].
    assert_eq!(c.coords_array(), &vec![2 * 3 + 1 * 4, 1 * 3 + 1 * 4]);
}

#[test]
fn covariant_components_transform_by_the_inverse_jacobian() {
    let w = Tensor::from_slice(source_point(), vec![Covariant], &[3, 4]).unwrap();
    let jac = matrix_at(target_point(), &[2, 1, 1, 1]);
    let inv = matrix_at(target_point(), &[1, -1, -1, 2]);
    let c = w.convert(&jac, &inv).unwrap();
    // c[i] = sum_j inv[i][j] * w[j].
    assert_eq!(c.coords_array(), &vec![1 * 3 - 1 * 4, -1 * 3 + 2 * 4]);
}

#[test]
fn rank_two_mixed_tensor_uses_one_factor_per_slot() {
    // t' = J t J^(-1) for a mixed-variance rank-2 tensor.
    let t = matrix_at(source_point(), &[1, 0, 0, 2]);
    let jac = matrix_at(target_point(), &[2, 1, 1, 1]);
    let inv = matrix_at(target_point(), &[1, -1, -1, 2]);
    let c = t.convert(&jac, &inv).unwrap();
    // c[i][l] = sum over j, k of t[j][k] * jac[i][j] * inv[l][k].
    assert_eq!(c.coords_array(), &vec![0, 2, -1, 3]);
}

#[test]
fn exact_round_trip_restores_the_components() {
    // Convert with an exactly invertible Jacobian and back with the inverse
    // pair: the components return unchanged.
    let t = matrix_at(source_point(), &[5, -3, 2, 7]);
    let jac = matrix_at(target_point(), &[2, 1, 1, 1]);
    let inv = matrix_at(target_point(), &[1, -1, -1, 2]);
    let there = t.convert(&jac, &inv).unwrap();
    let jac_back = matrix_at(source_point(), &[1, -1, -1, 2]);
    let inv_back = matrix_at(source_point(), &[2, 1, 1, 1]);
    let back = there.convert(&jac_back, &inv_back).unwrap();
    assert!(back.equals(&t));
}

#[test]
fn exact_round_trip_for_a_vector() {
    let v = Tensor::from_slice(source_point(), vec![Contravariant], &[6, -11]).unwrap();
    let jac = matrix_at(target_point(), &[2, 1, 1, 1]);
    let inv = matrix_at(target_point(), &[1, -1, -1, 2]);
    let there = v.convert(&jac, &inv).unwrap();
    let jac_back = matrix_at(source_point(), &[1, -1, -1, 2]);
    let inv_back = matrix_at(source_point(), &[2, 1, 1, 1]);
    let back = there.convert(&jac_back, &inv_back).unwrap();
    assert!(back.equals(&v));
}

#[test]
fn convert_rejects_bad_jacobian_shapes() {
    let v = Tensor::from_slice(source_point(), vec![Contravariant], &[1, 2]).unwrap();
    let not_rank_two = Tensor::from_slice(target_point(), vec![Contravariant], &[1, 2]).unwrap();
    let jac = matrix_at(target_point(), &[1, 0, 0, 1]);
    assert_eq!(v.convert(&not_rank_two, &jac).err().unwrap(), TensorError::ShapeMismatch);
    let wrong_dim = Tensor::from_slice(
        Point::new(vec![0, 0, 0]),
        vec![Contravariant, Covariant],
        &[1, 0, 0, 0, 1, 0, 0, 0, 1],
    )
    .unwrap();
    assert_eq!(v.convert(&wrong_dim, &jac).err().unwrap(), TensorError::ShapeMismatch);
}

#[test]
fn convert_rejects_jacobians_at_different_points() {
    let v = Tensor::from_slice(source_point(), vec![Contravariant], &[1, 2]).unwrap();
    let jac = matrix_at(target_point(), &[1, 0, 0, 1]);
    let inv = matrix_at(Point::new(vec![8, 8]), &[1, 0, 0, 1]);
    assert_eq!(v.convert(&jac, &inv).err().unwrap(), TensorError::IncompatiblePoints);
}

#[test]
fn scalar_conversion_keeps_the_value() {
    let s = Tensor::from_slice(source_point(), vec![], &[17]).unwrap();
    let jac = matrix_at(target_point(), &[2, 1, 1, 1]);
    let inv = matrix_at(target_point(), &[1, -1, -1, 2]);
    let c = s.convert(&jac, &inv).unwrap();
    assert_eq!(c.get(&[]).unwrap(), 17);
}
