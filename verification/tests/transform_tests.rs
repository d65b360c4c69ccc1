use lib::convolution::gcd::Gcd;
use lib::convolution::lcm::Lcm;
use lib::num::fp::{Fp, FpField};
use lib::poly::geometric::iota_geometric_sum;
use lib::set_power_series::SetPowerSeries;

const P: u32 = 998244353;

fn fps(v: &[u32]) -> Vec<Fp<P>> {
    v.iter().map(|&x| Fp::<P>::new(x)).collect()
}

fn vals(v: &[Fp<P>]) -> Vec<u32> {
    v.iter().map(|x| x.val()).collect()
}

#[test]
fn gcd_transform_multiples() {
    let r = FpField::<P>::new();
    let mut f = fps(&[1, 2, 3, 4, 5, 6]);
    Gcd.transform(&r, &mut f);
    assert_eq!(vals(&f), vec![1, 21, 9, 5, 6, 7]);
    Gcd.inverse_transform(&r, &mut f);
    assert_eq!(vals(&f), vec![1, 2, 3, 4, 5, 6]);
    let mut empty: Vec<Fp<P>> = Vec::new();
    Gcd.transform(&r, &mut empty);
    assert!(empty.is_empty());
}

#[test]
fn lcm_transform_divisors() {
    let r = FpField::<P>::new();
    let mut f = fps(&[1, 2, 3, 4, 5, 6]);
    Lcm.transform(&r, &mut f);
    assert_eq!(vals(&f), vec![21, 2, 5, 6, 10, 8]);
    Lcm.inverse_transform(&r, &mut f);
    assert_eq!(vals(&f), vec![1, 2, 3, 4, 5, 6]);
}

#[test]
fn iota_geometric_sum_small() {
    let r = FpField::<P>::new();
    // f = 1: 1 + 2 + 4 + 8
    assert_eq!(iota_geometric_sum(&r, &fps(&[1, 1]), &Fp::<P>::new(2), 4).val(), 15);
    // f(i) = i, r = 1: 0 + 1 + 2 + 3 + 4
    assert_eq!(iota_geometric_sum(&r, &fps(&[0, 1]), &Fp::<P>::new(1), 5).val(), 10);
    // f(i) = i^2, r = 3: 0 + 3 + 36
    assert_eq!(iota_geometric_sum(&r, &fps(&[0, 1, 4]), &Fp::<P>::new(3), 3).val(), 39);
    assert_eq!(iota_geometric_sum(&r, &fps(&[5, 7]), &Fp::<P>::new(0), 3).val(), 5);
    assert_eq!(iota_geometric_sum(&r, &fps(&[5, 7]), &Fp::<P>::new(9), 0).val(), 0);
    assert_eq!(iota_geometric_sum(&r, &[], &Fp::<P>::new(9), 4).val(), 0);
}

#[test]
fn set_power_series_ring() {
    let s = SetPowerSeries::new(FpField::<P>::new(), 2);
    assert_eq!(s.len(), 4);
    assert!(!s.is_empty());
    assert_eq!(vals(&s.zero()), vec![0, 0, 0, 0]);
    assert_eq!(vals(&s.one()), vec![1, 0, 0, 0]);
    let a = fps(&[1, 2, 3, 4]);
    let b = fps(&[5, 6, 7, 8]);
    assert_eq!(vals(&s.add(&a, &b)), vec![6, 8, 10, 12]);
    assert_eq!(vals(&s.neg(&a)), vec![P - 1, P - 2, P - 3, P - 4]);
    assert_eq!(vals(&s.mul(&a, &b)), vec![5, 16, 22, 60]);
}

#[test]
fn set_power_series_exp_log() {
    let s = SetPowerSeries::new(FpField::<P>::new(), 2);
    assert_eq!(vals(&s.exp(&fps(&[0, 1, 1, 0]))), vec![1, 1, 1, 1]);
    assert_eq!(vals(&s.exp(&fps(&[0, 1, 1, 5]))), vec![1, 1, 1, 6]);
    assert_eq!(vals(&s.log(&fps(&[1, 1, 1, 6]))), vec![0, 1, 1, 5]);
    let t = SetPowerSeries::new(FpField::<P>::new(), 3);
    let f = fps(&[0, 3, 1, 4, 1, 5, 9, 2]);
    assert_eq!(vals(&t.log(&t.exp(&f))), vals(&f));
}

use lib::linear::dyn_matrix::DynMatrix;
use lib::linear::matrix::Matrix;

fn fp(n: u32) -> Fp<P> {
    Fp::<P>::new(n)
}

#[test]
fn const_matrix_operations() {
    let f = FpField::<P>::new();
    let a: Matrix<FpField<P>, 2, 3> = Matrix::from_array(f, [[fp(1), fp(2), fp(3)], [fp(4), fp(5), fp(6)]]);
    assert_eq!(a.shape(), (2, 3));
    assert!(!a.is_square());
    assert_eq!(vals(a.row(1)), vec![4, 5, 6]);
    let b: Matrix<FpField<P>, 3, 1> = Matrix::from_array(f, [[fp(1)], [fp(1)], [fp(1)]]);
    let c = a.mul(&b);
    assert_eq!(vals(c.row(0)), vec![6]);
    assert_eq!(vals(c.row(1)), vec![15]);
    let z: Matrix<FpField<P>, 2, 3> = Matrix::zero(f);
    assert_eq!(vals(a.add(&z).row(0)), vec![1, 2, 3]);
    assert_eq!(vals(a.sub(&a).row(1)), vec![0, 0, 0]);
    assert_eq!(vals(a.neg().row(0)), vec![P - 1, P - 2, P - 3]);
    let mut d = a.add(&a);
    d.sub_assign(&a);
    assert_eq!(vals(d.row(1)), vec![4, 5, 6]);
    d.add_assign(&a);
    assert_eq!(vals(d.row(0)), vec![2, 4, 6]);
    let fib: Matrix<FpField<P>, 2, 2> = Matrix::from_array(f, [[fp(1), fp(1)], [fp(1), fp(0)]]);
    assert_eq!(vals(fib.pow(10).row(0)), vec![89, 55]);
    let mut e: Matrix<FpField<P>, 2, 2> = Matrix::one(f);
    assert!(e.is_square());
    e.mul_assign(&fib);
    assert_eq!(vals(e.row(1)), vec![1, 0]);
}

#[test]
fn dyn_matrix_negation_and_difference() {
    let f = FpField::<P>::new();
    let a = DynMatrix::from_vec(f, vec![vec![fp(5), fp(7)]]);
    let b = DynMatrix::from_vec(f, vec![vec![fp(2), fp(9)]]);
    assert_eq!(vals(a.sub(&b).row(0)), vec![3, P - 2]);
    assert_eq!(vals(b.neg().row(0)), vec![P - 2, P - 9]);
}

use lib::algebra::RootOfUnity;
use lib::periodic_function::{dft, inverse_dft};

const Q: u32 = 998244353;

fn fp_values(v: &[u32]) -> Vec<Fp<Q>> {
    v.iter().map(|&x| Fp::<Q>::new(x)).collect()
}

#[test]
fn root_of_unity_is_power_of_least_generator() {
    let field = FpField::<Q>::new();
    let w = field.root_of_unity(4).unwrap();
    assert_eq!(w.val(), 911660635);
    assert_eq!(w.pow(2).val(), Q - 1);
    assert_eq!(w.pow(4).val(), 1);
    assert_eq!(field.root_of_unity(8).unwrap().val(), 372528824);
    assert_eq!(field.root_of_unity(1).unwrap().val(), 1);
    assert!(field.root_of_unity(0).is_none());
    assert!(field.root_of_unity(3).is_none());
}

#[test]
fn dft_of_four_values() {
    let field = FpField::<Q>::new();
    let mut f = fp_values(&[1, 2, 3, 4]);
    dft(&field, &mut f);
    let got: Vec<u32> = f.iter().map(|x| x.val()).collect();
    assert_eq!(got, vec![10, 173167434, 998244351, 825076915]);
}

#[test]
fn inverse_dft_undoes_dft() {
    let field = FpField::<Q>::new();
    let mut f = fp_values(&[5, 0, 7, 1, 9, 2, 6, 3]);
    dft(&field, &mut f);
    inverse_dft(&field, &mut f);
    let got: Vec<u32> = f.iter().map(|x| x.val()).collect();
    assert_eq!(got, vec![5, 0, 7, 1, 9, 2, 6, 3]);
    let mut g = fp_values(&[42]);
    dft(&field, &mut g);
    assert_eq!(g[0].val(), 42);
    inverse_dft(&field, &mut g);
    assert_eq!(g[0].val(), 42);
}

use lib::poly::geometric::iota_geometric_series;

#[test]
fn iota_geometric_series_values() {
    let field = FpField::<Q>::new();
    let half = Fp::<Q>::new(2).inv();
    // Σ (i^2 + 1) / 2^i = 6 + 2
    let ys = fp_values(&[1, 2, 5, 10]);
    assert_eq!(iota_geometric_series(&field, &ys, &half).val(), 8);
    // Σ i r^i = r / (1 - r)^2 at r = 2
    assert_eq!(iota_geometric_series(&field, &fp_values(&[0, 1]), &Fp::<Q>::new(2)).val(), 2);
    // Σ 5 r^i = 5 / (1 - r) at r = 3
    assert_eq!(iota_geometric_series(&field, &fp_values(&[5]), &Fp::<Q>::new(3)).val(), 499122174);
    assert_eq!(iota_geometric_series(&field, &[], &Fp::<Q>::new(3)).val(), 0);
}
