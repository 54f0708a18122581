use diffgeom::point::Point;
use diffgeom::tensor::Tensor;
use diffgeom::variance::IndexKind::{self, Contravariant, Covariant};
use diffgeom::TensorError;

#[test]
fn dimension_one_operations() {
    let p = Point::new(vec![9]);
    let m = Tensor::from_slice(p.clone(), vec![Contravariant, Covariant], &[7]).unwrap();
    assert_eq!(m.get_num_coords(), 1);
    let t = m.trace(0, 1).unwrap();
    assert_eq!(t.get(&[]).unwrap(), 7);
    let v = Tensor::from_slice(p.clone(), vec![Contravariant], &[3]).unwrap();
    let prod = m.inner_product(&v, 1, 2).unwrap();
    assert_eq!(prod.get(&[0]).unwrap(), 21);
    let u = Tensor::unit(p);
    assert_eq!(u.coords_array(), &vec![1]);
}

#[test]
fn trace_over_nonadjacent_slots() {
    // Rank 3 over dimension 2, variance (contra, contra, co); contract slots
    // 0 and 2: r[j] = sum_i t[i][j][i].
    let comps: Vec<i64> = (1..=8).collect();
    let t = Tensor::from_slice(
        Point::new(vec![0, 0]),
        vec![Contravariant, Contravariant, Covariant],
        &comps,
    )
    .unwrap();
    let r = t.trace(0, 2).unwrap();
    // r[0] = t[0][0][0] + t[1][0][1] = 1 + 6; r[1] = t[0][1][0] + t[1][1][1] = 3 + 8.
    assert_eq!(r.coords_array(), &vec![7, 11]);
}

#[test]
fn fused_inner_product_agrees_with_two_steps_everywhere() {
    // A rank-3 and a rank-2 tensor over dimension 2, checked over every
    // contractible slot pair of the joined variance.
    let p = || Point::new(vec![1, -1]);
    let a_comps: Vec<i64> = (1..=8).collect();
    let b_comps: Vec<i64> = vec![2, -3, 5, 7];
    let a_var = vec![Contravariant, Covariant, Contravariant];
    let b_var = vec![Covariant, Contravariant];
    let a = Tensor::from_slice(p(), a_var.clone(), &a_comps).unwrap();
    let b = Tensor::from_slice(p(), b_var.clone(), &b_comps).unwrap();
    let joined: Vec<IndexKind> = a_var.iter().chain(b_var.iter()).copied().collect();
    let mut checked = 0;
    for lo in 0..joined.len() {
        for hi in lo + 1..joined.len() {
            if joined[lo] != joined[hi] {
                let fused = a.inner_product(&b, lo, hi).unwrap();
                let two_step = a.multiply(&b).unwrap().trace(lo, hi).unwrap();
                assert!(fused.equals(&two_step), "slots {} and {}", lo, hi);
                checked += 1;
            } else {
                assert_eq!(
                    a.inner_product(&b, lo, hi).err().unwrap(),
                    TensorError::InvalidContraction
                );
            }
        }
    }
    assert!(checked >= 4);
}

#[test]
fn iterator_visits_every_component_once() {
    let t = Tensor::zero(
        Point::new(vec![0, 0, 0]),
        vec![Covariant, Contravariant, Covariant],
    );
    let mut it = t.iter_coords();
    let mut seen = 0usize;
    while let Some(m) = it.next() {
        assert_eq!(t.get_coord(&m).unwrap(), seen);
        seen += 1;
    }
    assert_eq!(seen, t.get_num_coords());
}

#[test]
fn flat_and_unflat_round_trip() {
    for x in 0..27usize {
        let m = diffgeom::indexing::unflat_index(x, 3, 3);
        assert_eq!(diffgeom::indexing::flat_offset(&m, 3), Some(x));
    }
}

#[test]
fn scale_by_zero_gives_the_zero_tensor() {
    let t = Tensor::from_slice(Point::new(vec![0, 0]), vec![Covariant], &[5, -9]).unwrap();
    let z = Tensor::zero(Point::new(vec![0, 0]), vec![Covariant]);
    assert!(t.scale(0).equals(&z));
}

#[test]
fn divide_by_one_and_minus_one() {
    let t = Tensor::from_slice(Point::new(vec![0, 0]), vec![Covariant], &[5, -9]).unwrap();
    assert_eq!(t.divide(1).coords_array(), &vec![5, -9]);
    assert_eq!(t.divide(-1).coords_array(), &vec![-5, 9]);
}
