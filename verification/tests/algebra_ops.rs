use diffgeom::point::Point;
use diffgeom::tensor::Tensor;
use diffgeom::variance::IndexKind::{Contravariant, Covariant};
use diffgeom::TensorError;

fn origin() -> Point {
    Point::new(vec![0, 0])
}

fn matrix(comps: &[i64]) -> Tensor {
    Tensor::from_slice(origin(), vec![Contravariant, Covariant], comps).unwrap()
}

fn vector(comps: &[i64]) -> Tensor {
    Tensor::from_slice(origin(), vec![Contravariant], comps).unwrap()
}

fn covector(comps: &[i64]) -> Tensor {
    Tensor::from_slice(origin(), vec![Covariant], comps).unwrap()
}

#[test]
fn add_is_componentwise() {
    let a = matrix(&[1, 2, 3, 4]);
    let b = matrix(&[10, 20, 30, 40]);
    let s = a.add(&b).unwrap();
    assert_eq!(s.coords_array(), &vec![11, 22, 33, 44]);
}

#[test]
fn add_is_commutative() {
    let a = matrix(&[1, -2, 3, -4]);
    let b = matrix(&[5, 6, 7, 8]);
    assert!(a.add(&b).unwrap().equals(&b.add(&a).unwrap()));
}

#[test]
fn add_is_associative() {
    let a = matrix(&[1, 2, 3, 4]);
    let b = matrix(&[-1, 5, 0, 2]);
    let c = matrix(&[7, -3, 2, 2]);
    let left = a.add(&b).unwrap().add(&c).unwrap();
    let right = a.add(&b.add(&c).unwrap()).unwrap();
    assert!(left.equals(&right));
}

#[test]
fn adding_zero_changes_nothing() {
    let a = matrix(&[1, 2, 3, 4]);
    let z = Tensor::zero(origin(), vec![Contravariant, Covariant]);
    assert!(a.add(&z).unwrap().equals(&a));
}

#[test]
fn add_requires_equal_points() {
    let a = matrix(&[1, 2, 3, 4]);
    let b = Tensor::from_slice(
        Point::new(vec![1, 0]),
        vec![Contravariant, Covariant],
        &[1, 2, 3, 4],
    )
    .unwrap();
    assert_eq!(a.add(&b).err().unwrap(), TensorError::IncompatiblePoints);
}

#[test]
fn add_requires_equal_variance() {
    let a = matrix(&[1, 2, 3, 4]);
    let b = Tensor::from_slice(origin(), vec![Covariant, Covariant], &[1, 2, 3, 4]).unwrap();
    assert_eq!(a.add(&b).err().unwrap(), TensorError::ShapeMismatch);
}

#[test]
fn subtract_is_componentwise() {
    let a = matrix(&[10, 20, 30, 40]);
    let b = matrix(&[1, 2, 3, 4]);
    assert_eq!(a.subtract(&b).unwrap().coords_array(), &vec![9, 18, 27, 36]);
}

#[test]
fn scale_multiplies_every_component() {
    let a = vector(&[3, -5]);
    assert_eq!(a.scale(-4).coords_array(), &vec![-12, 20]);
}

#[test]
fn divide_truncates_toward_zero() {
    let a = vector(&[7, -7]);
    let q = a.divide(2);
    assert_eq!(q.coords_array(), &vec![3, -3]);
    let r = a.divide(-2);
    assert_eq!(r.coords_array(), &vec![-3, 3]);
}

#[test]
fn equals_is_componentwise() {
    let a = matrix(&[1, 2, 3, 4]);
    assert!(a.equals(&matrix(&[1, 2, 3, 4])));
    assert!(!a.equals(&matrix(&[1, 2, 3, 5])));
    assert!(!a.equals(&vector(&[1, 2])));
}

#[test]
fn trace_of_a_matrix_sums_the_diagonal() {
    let a = matrix(&[1, 2, 3, 4]);
    let t = a.trace(0, 1).unwrap();
    assert_eq!(t.get_rank(), 0);
    assert_eq!(t.get(&[]).unwrap(), 5);
}

#[test]
fn trace_rejects_same_kind_slots() {
    let a = Tensor::from_slice(origin(), vec![Covariant, Covariant], &[1, 2, 3, 4]).unwrap();
    assert_eq!(a.trace(0, 1).err().unwrap(), TensorError::InvalidContraction);
    let b = matrix(&[1, 2, 3, 4]);
    assert_eq!(b.trace(1, 0).err().unwrap(), TensorError::InvalidContraction);
    assert_eq!(b.trace(0, 2).err().unwrap(), TensorError::InvalidContraction);
}

#[test]
fn trace_of_rank_three_contracts_the_right_slots() {
    // t[i][j][k] over dimension 2 with variance (contra, co, contra);
    // contracting slots 0 and 1 leaves r[k] = sum_i t[i][i][k].
    let comps: Vec<i64> = (1..=8).collect();
    let t = Tensor::from_slice(origin(), vec![Contravariant, Covariant, Contravariant], &comps)
        .unwrap();
    let r = t.trace(0, 1).unwrap();
    // r[k] = t[0][0][k] + t[1][1][k]: flat offsets 0,1 and 6,7.
    assert_eq!(r.coords_array(), &vec![1 + 7, 2 + 8]);
    assert_eq!(r.get_variance(), &vec![Contravariant]);
}

#[test]
fn multiply_forms_the_outer_product() {
    let v = vector(&[1, 2]);
    let w = covector(&[10, 100]);
    let m = v.multiply(&w).unwrap();
    assert_eq!(m.get_rank(), 2);
    assert_eq!(m.get_variance(), &vec![Contravariant, Covariant]);
    assert_eq!(m.coords_array(), &vec![10, 100, 20, 200]);
}

#[test]
fn multiply_requires_equal_points() {
    let v = vector(&[1, 2]);
    let w = Tensor::from_slice(Point::new(vec![9, 9]), vec![Covariant], &[1, 2]).unwrap();
    assert_eq!(v.multiply(&w).err().unwrap(), TensorError::IncompatiblePoints);
}

#[test]
fn inner_product_matches_trace_of_product_split_case() {
    // Matrix times vector: contract the matrix's covariant slot with the
    // vector's contravariant slot — one slot in each factor.
    let m = matrix(&[1, 2, 3, 4]);
    let v = vector(&[5, 7]);
    let fused = m.inner_product(&v, 1, 2).unwrap();
    let two_step = m.multiply(&v).unwrap().trace(1, 2).unwrap();
    assert!(fused.equals(&two_step));
    assert_eq!(fused.coords_array(), &vec![1 * 5 + 2 * 7, 3 * 5 + 4 * 7]);
}

#[test]
fn inner_product_matches_trace_of_product_left_case() {
    // Both contracted slots inside the left factor.
    let m = matrix(&[1, 2, 3, 4]);
    let v = vector(&[5, 7]);
    let fused = m.inner_product(&v, 0, 1).unwrap();
    let two_step = m.multiply(&v).unwrap().trace(0, 1).unwrap();
    assert!(fused.equals(&two_step));
    // The trace of m is 5, so the result is 5 * v.
    assert_eq!(fused.coords_array(), &vec![25, 35]);
}

#[test]
fn inner_product_matches_trace_of_product_right_case() {
    // Both contracted slots inside the right factor.
    let v = vector(&[5, 7]);
    let m = matrix(&[1, 2, 3, 4]);
    let fused = v.inner_product(&m, 1, 2).unwrap();
    let two_step = v.multiply(&m).unwrap().trace(1, 2).unwrap();
    assert!(fused.equals(&two_step));
    assert_eq!(fused.coords_array(), &vec![25, 35]);
}

#[test]
fn inner_product_rejects_bad_slots() {
    let v = vector(&[1, 2]);
    let w = vector(&[3, 4]);
    assert_eq!(v.inner_product(&w, 0, 1).err().unwrap(), TensorError::InvalidContraction);
    let m = matrix(&[1, 2, 3, 4]);
    let u = Tensor::from_slice(Point::new(vec![1, 1]), vec![Contravariant], &[1, 2]).unwrap();
    assert_eq!(m.inner_product(&u, 1, 2).err().unwrap(), TensorError::IncompatiblePoints);
}

#[test]
fn transpose_swaps_slots() {
    let a = Tensor::from_slice(origin(), vec![Contravariant, Covariant], &[1, 2, 3, 4]).unwrap();
    let t = a.transpose().unwrap();
    assert_eq!(t.coords_array(), &vec![1, 3, 2, 4]);
    assert_eq!(t.get_variance(), &vec![Covariant, Contravariant]);
}

#[test]
fn transpose_twice_is_identity() {
    let a = matrix(&[4, -1, 7, 2]);
    assert!(a.transpose().unwrap().transpose().unwrap().equals(&a));
}

#[test]
fn transpose_rejects_other_ranks() {
    let v = vector(&[1, 2]);
    assert_eq!(v.transpose().err().unwrap(), TensorError::ShapeMismatch);
}

#[test]
fn unit_is_the_kronecker_delta() {
    let u = Tensor::unit(Point::new(vec![0, 0, 0]));
    assert_eq!(u.coords_array(), &vec![1, 0, 0, 0, 1, 0, 0, 0, 1]);
    assert_eq!(u.get_variance(), &vec![Contravariant, Covariant]);
}

#[test]
fn trace_of_unit_is_the_dimension() {
    let u = Tensor::unit(Point::new(vec![0, 0, 0]));
    let s = u.trace(0, 1).unwrap();
    assert_eq!(s.get_rank(), 0);
    assert_eq!(s.get(&[]).unwrap(), 3);
}

#[test]
fn outer_power_contraction_is_index_insertion_consistent() {
    // Contract the first two slots of v (x) w (x) v (x) v, where w is the
    // covector with v's components: every remaining component equals
    // (sum_i v[i] * v[i]) * v[c] * v[e].
    let v = vector(&[2, 3]);
    let w = covector(&[2, 3]);
    let t4 = v.multiply(&w).unwrap().multiply(&v).unwrap().multiply(&v).unwrap();
    let traced = t4.trace(0, 1).unwrap();
    let dot = 2 * 2 + 3 * 3;
    for c in 0..2usize {
        for e in 0..2usize {
            let vc = if c == 0 { 2 } else { 3 };
            let ve = if e == 0 { 2 } else { 3 };
            assert_eq!(traced.get(&[c, e]).unwrap(), dot * vc * ve);
        }
    }
}
