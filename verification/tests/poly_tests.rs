use lib::num::fp::{Fp, FpField};
use lib::poly::evaluation::{iota_shift, multipoint_evaluate};
use lib::poly::interpolation::poly_interpolate;
use lib::poly::subproduct_tree::SubproductTree;

const P: u32 = 998244353;

fn fp(n: u32) -> Fp<P> {
    Fp::<P>::new(n)
}

fn fps(v: &[u32]) -> Vec<Fp<P>> {
    v.iter().map(|&x| fp(x)).collect()
}

fn vals(v: &[Fp<P>]) -> Vec<u32> {
    v.iter().map(|x| x.val()).collect()
}

#[test]
fn iota_shift_squares() {
    let f = FpField::<P>::new();
    // f(i) = i^2 + 1 on [0, 4)
    let ys = fps(&[1, 2, 5, 10]);
    assert_eq!(vals(&iota_shift(&f, &ys, &fp(10), 3)), vec![101, 122, 145]);
    assert_eq!(vals(&iota_shift(&f, &ys, &fp(0), 4)), vec![1, 2, 5, 10]);
    assert_eq!(vals(&iota_shift(&f, &ys, &fp(P - 2), 3)), vec![5, 2, 1]);
}

#[test]
fn iota_shift_edge_cases() {
    let f = FpField::<P>::new();
    assert!(iota_shift(&f, &fps(&[3, 4]), &fp(7), 0).is_empty());
    assert_eq!(vals(&iota_shift(&f, &[], &fp(7), 3)), vec![0, 0, 0]);
    assert_eq!(vals(&iota_shift(&f, &fps(&[9]), &fp(100), 2)), vec![9, 9]);
}

#[test]
fn subproduct_tree_product() {
    let f = FpField::<P>::new();
    // (t - 1)(t - 2)(t - 3) = t^3 - 6t^2 + 11t - 6
    let tree = SubproductTree::new(f, &fps(&[1, 2, 3]));
    assert_eq!(vals(tree.product()), vec![P - 6, 11, P - 6, 1]);
    let empty = SubproductTree::new(FpField::<P>::new(), &[]);
    assert_eq!(vals(empty.product()), vec![1]);
}

#[test]
fn subproduct_tree_evaluate() {
    let f = FpField::<P>::new();
    let tree = SubproductTree::new(f, &fps(&[0, 1, 2, 10]));
    // 3 + 2t + t^2
    let poly = fps(&[3, 2, 1]);
    assert_eq!(vals(&tree.evaluate(&poly)), vec![3, 6, 11, 123]);
    assert_eq!(vals(&tree.evaluate(&[])), vec![0, 0, 0, 0]);
}

#[test]
fn subproduct_tree_interpolate() {
    let f = FpField::<P>::new();
    let xs = fps(&[0, 1, 2, 10]);
    let tree = SubproductTree::new(f, &xs);
    // the cubic 4 - t + 2t^3 through its values
    let ys = fps(&[4, 5, 18, 1994]);
    let g = tree.interpolate(&ys);
    assert_eq!(vals(&g), vec![4, P - 1, 0, 2]);
    assert_eq!(vals(&tree.evaluate(&g)), vals(&ys));
}

#[test]
fn multipoint_evaluate_matches_horner() {
    let f = FpField::<P>::new();
    let poly = fps(&[1, 0, 0, 1]);
    assert_eq!(vals(&multipoint_evaluate(&f, &poly, &fps(&[2, 3, P - 1]))), vec![9, 28, 0]);
}

#[test]
fn poly_interpolate_line_and_constant() {
    let f = FpField::<P>::new();
    assert_eq!(vals(&poly_interpolate(&f, &fps(&[5, 7]), &fps(&[1, 5]))), vec![P - 9, 2]);
    assert_eq!(vals(&poly_interpolate(&f, &fps(&[3]), &fps(&[8]))), vec![8]);
    assert!(poly_interpolate(&f, &[], &[]).is_empty());
}

use lib::fps::elementary::fps_inv;
use lib::fps::fps_convolve;
use lib::poly::poly_convolve;
use lib::poly::taylor_shift::poly_taylor_shift;

#[test]
fn poly_convolve_small() {
    let f = FpField::<P>::new();
    // (1 + 2x)(3 + x + x^2) = 3 + 7x + 3x^2 + 2x^3
    assert_eq!(vals(&poly_convolve(&f, fps(&[1, 2]), fps(&[3, 1, 1]))), vec![3, 7, 3, 2]);
    assert!(poly_convolve(&f, fps(&[1, 2]), Vec::new()).is_empty());
    assert!(poly_convolve(&f, Vec::new(), fps(&[5])).is_empty());
}

#[test]
fn fps_convolve_truncates_and_pads() {
    let f = FpField::<P>::new();
    assert_eq!(vals(&fps_convolve(&f, fps(&[1, 2]), fps(&[3, 1, 1]), 2)), vec![3, 7]);
    assert_eq!(vals(&fps_convolve(&f, fps(&[1, 2]), fps(&[3]), 4)), vec![3, 6, 0, 0]);
    assert!(fps_convolve(&f, fps(&[1]), fps(&[1]), 0).is_empty());
}

#[test]
fn fps_inv_geometric() {
    let f = FpField::<P>::new();
    // 1 / (1 - x) = 1 + x + x^2 + ...
    assert_eq!(vals(&fps_inv(&f, &fps(&[1, P - 1]), 5)), vec![1, 1, 1, 1, 1]);
    // 1 / (2 + x): 1/2, -1/4, 1/8
    let g = fps_inv(&f, &fps(&[2, 1]), 3);
    assert_eq!(g[0].val(), fp(2).inv().val());
    assert_eq!(vals(&fps_convolve(&f, fps(&[2, 1]), g, 3)), vec![1, 0, 0]);
    assert!(fps_inv(&f, &[], 0).is_empty());
}

#[test]
fn taylor_shift_binomial() {
    let f = FpField::<P>::new();
    // x^2 shifted by 1: (x + 1)^2 = 1 + 2x + x^2
    assert_eq!(vals(&poly_taylor_shift(&f, &fps(&[0, 0, 1]), &fp(1))), vec![1, 2, 1]);
    // 1 + x + x^3 shifted by 2: 11 + 13x + 6x^2 + x^3
    assert_eq!(vals(&poly_taylor_shift(&f, &fps(&[1, 1, 0, 1]), &fp(2))), vec![11, 13, 6, 1]);
    assert!(poly_taylor_shift(&f, &[], &fp(3)).is_empty());
}

use lib::fps::elementary::{fps_exp, fps_log};
use lib::periodic_function::cyclic_convolve;

#[test]
fn fps_exp_of_x() {
    let f = FpField::<P>::new();
    let g = fps_exp(&f, &fps(&[0, 1]), 4);
    assert_eq!(vals(&g), vec![1, 1, fp(2).inv().val(), fp(6).inv().val()]);
    assert!(fps_exp(&f, &[], 0).is_empty());
    assert_eq!(vals(&fps_exp(&f, &[], 3)), vec![1, 0, 0]);
}

#[test]
fn fps_log_of_one_plus_x() {
    let f = FpField::<P>::new();
    let g = fps_log(&f, &fps(&[1, 1]), 4);
    assert_eq!(vals(&g), vec![0, 1, P - fp(2).inv().val(), fp(3).inv().val()]);
    assert!(fps_log(&f, &[], 0).is_empty());
}

#[test]
fn fps_log_inverts_exp() {
    let f = FpField::<P>::new();
    let h = fps(&[0, 3, 1, 4, 1, 5]);
    let e = fps_exp(&f, &h, 6);
    assert_eq!(vals(&fps_log(&f, &e, 6)), vals(&h));
}

#[test]
fn cyclic_convolve_wraps() {
    let f = FpField::<P>::new();
    assert_eq!(vals(&cyclic_convolve(&f, fps(&[1, 2, 3, 4]), fps(&[1, 0, 0, 1]))), vec![3, 5, 7, 5]);
    assert!(cyclic_convolve(&f, Vec::new(), Vec::new()).is_empty());
}

use lib::fps::relaxed::semi_relaxed;

#[test]
fn semi_relaxed_fibonacci() {
    let f = FpField::<P>::new();
    let fib = semi_relaxed(&f, &fps(&[0, 1, 1]), 6, |i: usize, s: Fp<P>| if i == 0 { fp(1) } else { s });
    assert_eq!(vals(&fib), vec![1, 1, 2, 3, 5, 8]);
    let doubling = semi_relaxed(&f, &fps(&[7, 2]), 4, |i: usize, s: Fp<P>| if i == 0 { fp(3) } else { s });
    assert_eq!(vals(&doubling), vec![3, 6, 12, 24]);
}

#[test]
fn subproduct_tree_product_vanishes_at_points() {
    let f = FpField::<P>::new();
    let tree = SubproductTree::new(f, &fps(&[4, 9, P - 2]));
    let product = tree.product().to_vec();
    assert_eq!(vals(&tree.evaluate(&product)), vec![0, 0, 0]);
    assert_eq!(vals(&multipoint_evaluate(&FpField::<P>::new(), &product, &fps(&[0]))), vec![72]);
}

use lib::fps::elementary::fps_pow;

#[test]
fn fps_pow_binomial_coefficients() {
    let f = FpField::<P>::new();
    assert_eq!(vals(&fps_pow(&f, &fps(&[1, 1]), 4, 5)), vec![1, 5, 10, 10]);
    assert_eq!(vals(&fps_pow(&f, &fps(&[2, 3, 1]), 5, 3)), vec![8, 36, 66, 63, 33]);
}

#[test]
fn fps_pow_edge_cases() {
    let f = FpField::<P>::new();
    assert!(fps_pow(&f, &fps(&[3, 1]), 0, 7).is_empty());
    assert_eq!(vals(&fps_pow(&f, &fps(&[3, 1]), 3, 0)), vec![1, 0, 0]);
    assert_eq!(vals(&fps_pow(&f, &fps(&[0, 1]), 5, 3)), vec![0, 0, 0, 1, 0]);
    assert_eq!(vals(&fps_pow(&f, &fps(&[0, 1]), 5, 5)), vec![0, 0, 0, 0, 0]);
    assert_eq!(vals(&fps_pow(&f, &[], 3, 2)), vec![0, 0, 0]);
}

#[test]
fn fps_pow_large_exponent() {
    let f = FpField::<P>::new();
    let g = fps_pow(&f, &fps(&[1, 2]), 6, 1_000_000_000_000_000_000);
    assert_eq!(vals(&g), vec![1, 433897443, 432184855, 850317611, 832143553, 133143429]);
}


#[test]
fn fps_pow_exponents_add() {
    let f = FpField::<P>::new();
    let s = fps(&[3, 1, 4, 1, 5]);
    let a = fps_pow(&f, &s, 6, 7);
    let b = fps_pow(&f, &s, 6, 11);
    let ab = fps_convolve(&f, a, b, 6);
    assert_eq!(vals(&ab), vals(&fps_pow(&f, &s, 6, 18)));
}
