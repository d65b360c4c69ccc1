use lib::grid::GridShape;
use lib::linear::dyn_matrix::DynMatrix;
use lib::linear::matrix_mul;
use lib::num::fp::{Fp, FpField};
use lib::poly::calculus::{poly_derivative, poly_integral};
use lib::poly::evaluation::iota_evaluate;
use lib::divide_and_conquer::{cdq, CdqStep};
use lib::convolution::dirichlet::dirichlet_convolve;
use lib::set_function::subset::{subset_mobius, subset_zeta};
use lib::set_function::set_power_series::{ranked_subset_mobius, ranked_subset_zeta, subset_convolve};
use lib::symmetric::{sym_cycles, sym_order, sym_pow, sym_sign, Symmetric};

const P: u32 = 998244353;

fn fp(n: u32) -> Fp<P> {
    Fp::<P>::new(n)
}

fn vals(v: &[Fp<P>]) -> Vec<u32> {
    v.iter().map(|x| x.val()).collect()
}

#[test]
fn grid_indices() {
    let g = GridShape::new(3, 4);
    assert_eq!(g.h(), 3);
    assert_eq!(g.w(), 4);
    assert_eq!(g.index(1, 2), 6);
    assert_eq!(g.coord(6), (1, 2));
    for u in 0..12 {
        let (i, j) = g.coord(u);
        assert_eq!(g.index(i, j), u);
    }
}

#[test]
fn grid_shift() {
    let g = GridShape::new(3, 4);
    assert_eq!(g.shift((0, 0), (usize::MAX, 0)), None);
    assert_eq!(g.shift((1, 1), (1, usize::MAX)), Some((2, 0)));
    assert_eq!(g.shift((2, 3), (0, 1)), None);
    assert_eq!(g.shift((2, 3), (0, 0)), Some((2, 3)));
}

#[test]
fn grid_neighbors() {
    let g = GridShape::new(3, 4);
    assert_eq!(g.neighbors4(0, 0), vec![(0, 1), (1, 0)]);
    assert_eq!(g.neighbors4(1, 1), vec![(0, 1), (1, 0), (1, 2), (2, 1)]);
    assert_eq!(g.neighbors8(0, 0), vec![(0, 1), (1, 0), (1, 1)]);
    assert_eq!(g.neighbors8(1, 1).len(), 8);
    assert_eq!(g.neighbors8(2, 3), vec![(1, 2), (1, 3), (2, 2)]);
}

#[test]
fn symmetric_group_operations() {
    let s = Symmetric(3);
    assert_eq!(s.degree(), 3);
    assert_eq!(s.id(), vec![0, 1, 2]);
    let p = vec![1, 2, 0];
    assert_eq!(s.op(&p, &p), vec![2, 0, 1]);
    assert_eq!(s.inv(&p), vec![2, 0, 1]);
    assert_eq!(s.op(&p, &s.inv(&p)), s.id());
    assert_eq!(s.op(&s.id(), &p), p);
}

#[test]
fn symmetric_group_associativity() {
    let s = Symmetric(4);
    let a = vec![1, 0, 3, 2];
    let b = vec![2, 3, 1, 0];
    let c = vec![3, 1, 0, 2];
    assert_eq!(s.op(&s.op(&a, &b), &c), s.op(&a, &s.op(&b, &c)));
}

#[test]
fn cycles_sign_power_order() {
    let p = [1, 2, 0, 4, 3];
    assert_eq!(sym_cycles(&p), vec![vec![0, 1, 2], vec![3, 4]]);
    assert!(!sym_sign(&p));
    assert!(sym_sign(&[0, 1, 2]));
    assert!(!sym_sign(&[1, 0]));
    assert_eq!(sym_pow(&p, 2), vec![2, 0, 1, 3, 4]);
    assert_eq!(sym_pow(&p, 6), vec![0, 1, 2, 3, 4]);
    assert_eq!(sym_pow(&p, 0), vec![0, 1, 2, 3, 4]);
    assert_eq!(sym_order(&p), vec![(2, 1), (3, 1)]);
    assert_eq!(sym_order(&[0, 1, 2]), vec![]);
    assert_eq!(sym_order(&[1, 2, 3, 0, 5, 4]), vec![(2, 2)]);
}

#[test]
fn cycles_of_identity_are_fixed_points() {
    assert_eq!(sym_cycles(&[0, 1, 2]), vec![vec![0], vec![1], vec![2]]);
    assert_eq!(sym_cycles(&[]), Vec::<Vec<usize>>::new());
}

#[test]
fn matrix_product() {
    let f = FpField::<P>::new();
    let a = [fp(1), fp(2), fp(3), fp(4)];
    let b = [fp(5), fp(6), fp(7), fp(8)];
    assert_eq!(vals(&matrix_mul(&f, 2, 2, 2, &a, &b)), vec![19, 22, 43, 50]);
    let c = [fp(1), fp(2), fp(3)];
    let d = [fp(4), fp(5), fp(6)];
    assert_eq!(vals(&matrix_mul(&f, 1, 3, 1, &c, &d)), vec![32]);
    assert_eq!(vals(&matrix_mul(&f, 3, 1, 3, &c, &d)), vec![4, 5, 6, 8, 10, 12, 12, 15, 18]);
}

#[test]
fn matrix_product_associativity() {
    let f = FpField::<P>::new();
    let a: Vec<Fp<P>> = (1..=6).map(fp).collect();
    let b: Vec<Fp<P>> = (7..=12).map(fp).collect();
    let c: Vec<Fp<P>> = (13..=16).map(fp).collect();
    let ab = matrix_mul(&f, 2, 3, 2, &a, &b);
    let bc = matrix_mul(&f, 3, 2, 2, &b, &c);
    assert_eq!(matrix_mul(&f, 2, 2, 2, &ab, &c), matrix_mul(&f, 2, 3, 2, &a, &bc));
}

#[test]
fn dyn_matrix_constructors() {
    let f = FpField::<P>::new();
    let z = DynMatrix::zero(f, 2, 3);
    assert_eq!(z.shape(), (2, 3));
    assert!(!z.is_square());
    assert_eq!(vals(z.row(1)), vec![0, 0, 0]);
    let e = DynMatrix::one(f, 3);
    assert!(e.is_square());
    assert_eq!(vals(e.row(0)), vec![1, 0, 0]);
    assert_eq!(vals(e.row(1)), vec![0, 1, 0]);
    assert_eq!(vals(e.row(2)), vec![0, 0, 1]);
    let m = DynMatrix::from_vec(f, vec![vec![fp(1), fp(2), fp(3)], vec![fp(4), fp(5), fp(6)]]);
    assert_eq!(m.shape(), (2, 3));
    assert_eq!(vals(m.row(1)), vec![4, 5, 6]);
}

#[test]
fn dyn_matrix_product_and_power() {
    let f = FpField::<P>::new();
    let fib = DynMatrix::from_vec(f, vec![vec![fp(1), fp(1)], vec![fp(1), fp(0)]]);
    let p = fib.pow(10);
    assert_eq!(vals(p.row(0)), vec![89, 55]);
    assert_eq!(vals(p.row(1)), vec![55, 34]);
    let p0 = fib.pow(0);
    assert_eq!(vals(p0.row(0)), vec![1, 0]);
    assert_eq!(vals(p0.row(1)), vec![0, 1]);
    let sq = fib.mul(&fib);
    assert_eq!(vals(sq.row(0)), vec![2, 1]);
    let p5 = fib.pow(5);
    let p7 = fib.pow(7);
    let p12 = fib.pow(12);
    let prod = p5.mul(&p7);
    assert_eq!(vals(prod.row(0)), vals(p12.row(0)));
    assert_eq!(vals(prod.row(1)), vals(p12.row(1)));
}

#[test]
fn dyn_matrix_rectangular_product() {
    let f = FpField::<P>::new();
    let a = DynMatrix::from_vec(f, vec![vec![fp(1), fp(2), fp(3)]]);
    let b = DynMatrix::from_vec(f, vec![vec![fp(4)], vec![fp(5)], vec![fp(6)]]);
    let ab = a.mul(&b);
    assert_eq!(ab.shape(), (1, 1));
    assert_eq!(vals(ab.row(0)), vec![32]);
    let ba = b.mul(&a);
    assert_eq!(ba.shape(), (3, 3));
    assert_eq!(vals(ba.row(2)), vec![6, 12, 18]);
}

#[test]
fn polynomial_derivative() {
    let f = FpField::<P>::new();
    assert_eq!(vals(&poly_derivative(&f, &[fp(1), fp(2), fp(3)])), vec![2, 6]);
    assert_eq!(vals(&poly_derivative(&f, &[fp(5)])), Vec::<u32>::new());
    assert_eq!(vals(&poly_derivative(&f, &[])), Vec::<u32>::new());
}

#[test]
fn polynomial_integral() {
    let f = FpField::<P>::new();
    assert_eq!(vals(&poly_integral(&f, &[fp(1), fp(2), fp(3)])), vec![0, 1, 1, 1]);
    assert_eq!(vals(&poly_integral(&f, &[])), vec![0]);
}

#[test]
fn derivative_of_integral_is_identity() {
    let f = FpField::<P>::new();
    let a = [fp(7), fp(0), fp(5), fp(P - 1), fp(42)];
    assert_eq!(poly_derivative(&f, &poly_integral(&f, &a)), a.to_vec());
}

#[test]
fn dyn_matrix_sum_and_distributivity() {
    let f = FpField::<P>::new();
    let a = DynMatrix::from_vec(f, vec![vec![fp(1), fp(2)], vec![fp(3), fp(4)]]);
    let b = DynMatrix::from_vec(f, vec![vec![fp(5), fp(6)], vec![fp(7), fp(8)]]);
    let c = DynMatrix::from_vec(f, vec![vec![fp(P - 1), fp(0)], vec![fp(2), fp(9)]]);
    let s = b.add(&c);
    assert_eq!(vals(s.row(0)), vec![4, 6]);
    assert_eq!(vals(s.row(1)), vec![9, 17]);
    let lhs = a.mul(&s);
    let rhs = a.mul(&b).add(&a.mul(&c));
    for i in 0..2 {
        assert_eq!(vals(lhs.row(i)), vals(rhs.row(i)));
    }
    let e = DynMatrix::one(f, 2);
    let ea = e.mul(&a);
    for i in 0..2 {
        assert_eq!(vals(ea.row(i)), vals(a.row(i)));
    }
    let z = DynMatrix::zero(f, 2, 2);
    let za = z.mul(&a);
    assert_eq!(vals(za.row(0)), vec![0, 0]);
    let az = a.add(&z);
    assert_eq!(vals(az.row(1)), vec![3, 4]);
}

use lib::set_function::superset::{and_convolve, superset_mobius, superset_zeta};

#[test]
fn superset_zeta_sums_supersets() {
    let ring = FpField::<P>::new();
    let mut f = vec![fp(1), fp(2), fp(3), fp(4)];
    superset_zeta(&ring, &mut f);
    assert_eq!(vals(&f), vec![10, 6, 7, 4]);
    superset_mobius(&ring, &mut f);
    assert_eq!(vals(&f), vec![1, 2, 3, 4]);
}

#[test]
fn superset_mobius_alternates_signs() {
    let ring = FpField::<P>::new();
    let mut f = vec![fp(0), fp(0), fp(0), fp(1)];
    superset_mobius(&ring, &mut f);
    assert_eq!(vals(&f), vec![1, P - 1, P - 1, 1]);
    let mut one = vec![fp(7)];
    superset_zeta(&ring, &mut one);
    assert_eq!(vals(&one), vec![7]);
}

#[test]
fn and_convolve_intersections() {
    let ring = FpField::<P>::new();
    let f = vec![fp(1), fp(2), fp(3), fp(4)];
    let g = vec![fp(5), fp(6), fp(7), fp(8)];
    let h = and_convolve(&ring, f.clone(), g.clone());
    assert_eq!(vals(&h), vec![103, 52, 73, 32]);
    let mut direct = vec![0u64; 4];
    for t in 0..4 {
        for u in 0..4 {
            direct[t & u] += (f[t].val() as u64) * (g[u].val() as u64);
        }
    }
    assert_eq!(vals(&h).iter().map(|&x| x as u64).collect::<Vec<_>>(), direct);
}

use lib::set_function::xor::{inverse_walsh_hadamard, walsh_hadamard, xor_convolve};

#[test]
fn walsh_hadamard_signs() {
    let ring = FpField::<P>::new();
    let mut f = vec![fp(1), fp(2), fp(3), fp(4)];
    walsh_hadamard(&ring, &mut f);
    assert_eq!(vals(&f), vec![10, P - 2, P - 4, 0]);
    inverse_walsh_hadamard(&ring, &mut f);
    assert_eq!(vals(&f), vec![1, 2, 3, 4]);
}

#[test]
fn walsh_hadamard_twice_scales() {
    let ring = FpField::<P>::new();
    let mut f = vec![fp(5), fp(0), fp(7), fp(1), fp(2), fp(2), fp(9), fp(3)];
    walsh_hadamard(&ring, &mut f);
    walsh_hadamard(&ring, &mut f);
    assert_eq!(vals(&f), vec![40, 0, 56, 8, 16, 16, 72, 24]);
}

#[test]
fn xor_convolve_symmetric_differences() {
    let ring = FpField::<P>::new();
    let f = vec![fp(1), fp(2), fp(3), fp(4)];
    let g = vec![fp(5), fp(6), fp(7), fp(8)];
    let h = xor_convolve(&ring, f.clone(), g.clone());
    let mut direct = vec![0u64; 4];
    for t in 0..4 {
        for u in 0..4 {
            direct[t ^ u] += (f[t].val() as u64) * (g[u].val() as u64);
        }
    }
    assert_eq!(vals(&h).iter().map(|&x| x as u64).collect::<Vec<_>>(), direct);
}

#[test]
fn iota_evaluate_quadratic() {
    let f = FpField::<P>::new();
    let ys = [fp(1), fp(2), fp(5), fp(10)];
    assert_eq!(iota_evaluate(&f, &ys, &fp(10)).val(), 101);
    assert_eq!(iota_evaluate(&f, &ys, &fp(4)).val(), 17);
    assert_eq!(iota_evaluate(&f, &ys, &fp(P - 1)).val(), 2);
}

#[test]
fn iota_evaluate_at_nodes() {
    let f = FpField::<P>::new();
    let ys = [fp(3), fp(1), fp(4), fp(1), fp(5)];
    for i in 0..5 {
        assert_eq!(iota_evaluate(&f, &ys, &fp(i as u32)).val(), ys[i].val());
    }
}

#[test]
fn iota_evaluate_small_cases() {
    let f = FpField::<P>::new();
    assert_eq!(iota_evaluate(&f, &[], &fp(5)).val(), 0);
    assert_eq!(iota_evaluate(&f, &[fp(7)], &fp(123)).val(), 7);
    let cubes = [fp(0), fp(1), fp(8), fp(27)];
    assert_eq!(iota_evaluate(&f, &cubes, &fp(5)).val(), 125);
    assert_eq!(iota_evaluate(&f, &cubes, &fp(P - 1)).val(), P - 1);
}

#[test]
fn iota_evaluate_small_prime() {
    let f = FpField::<7>::new();
    let ys = [Fp::<7>::new(0), Fp::<7>::new(1), Fp::<7>::new(4)];
    assert_eq!(iota_evaluate(&f, &ys, &Fp::<7>::new(5)).val(), 4);
}

#[test]
fn cdq_small_schedule() {
    assert_eq!(cdq(0), vec![]);
    assert_eq!(cdq(1), vec![CdqStep::Finish { index: 0 }]);
    assert_eq!(
        cdq(3),
        vec![
            CdqStep::Finish { index: 0 },
            CdqStep::Contribute { lo: 0, mid: 1, hi: 3 },
            CdqStep::Finish { index: 1 },
            CdqStep::Contribute { lo: 1, mid: 2, hi: 3 },
            CdqStep::Finish { index: 2 },
        ]
    );
}

#[test]
fn cdq_covers_each_pair_once() {
    let n = 13;
    let steps = cdq(n);
    let mut finished = vec![false; n];
    let mut next = 0;
    let mut count = vec![vec![0; n]; n];
    for st in &steps {
        match *st {
            CdqStep::Finish { index } => {
                assert_eq!(index, next);
                next += 1;
                finished[index] = true;
            }
            CdqStep::Contribute { lo, mid, hi } => {
                assert!(lo < mid && mid < hi && hi <= n);
                for i in lo..mid {
                    assert!(finished[i]);
                    for j in mid..hi {
                        assert!(!finished[j]);
                        count[i][j] += 1;
                    }
                }
            }
        }
    }
    assert_eq!(next, n);
    for i in 0..n {
        for j in i + 1..n {
            assert_eq!(count[i][j], 1);
        }
    }
}

#[test]
fn dirichlet_divisor_counts() {
    let f = FpField::<P>::new();
    let ones: Vec<Fp<P>> = (0..10).map(|_| fp(1)).collect();
    assert_eq!(vals(&dirichlet_convolve(&f, &ones, &ones)), vec![0, 1, 2, 2, 3, 2, 4, 2, 4, 3]);
    let ids: Vec<Fp<P>> = (0..13).map(|i| fp(i)).collect();
    let ones13: Vec<Fp<P>> = (0..13).map(|_| fp(1)).collect();
    assert_eq!(
        vals(&dirichlet_convolve(&f, &ids, &ones13)),
        vec![0, 1, 3, 4, 7, 6, 12, 8, 15, 13, 18, 12, 28]
    );
    assert_eq!(vals(&dirichlet_convolve(&f, &[], &[])), Vec::<u32>::new());
    assert_eq!(vals(&dirichlet_convolve(&f, &[fp(5)], &[fp(7)])), vec![0]);
}

#[test]
fn subset_transforms() {
    let f = FpField::<P>::new();
    let mut a = vec![fp(1), fp(2), fp(3), fp(4)];
    subset_zeta(&f, &mut a);
    assert_eq!(vals(&a), vec![1, 3, 4, 10]);
    subset_mobius(&f, &mut a);
    assert_eq!(vals(&a), vec![1, 2, 3, 4]);
    let orig: Vec<Fp<P>> = (0..16).map(|i| fp(i * i + 3)).collect();
    let mut b = orig.clone();
    subset_zeta(&f, &mut b);
    assert_eq!(b[5].val(), orig[0].val() + orig[1].val() + orig[4].val() + orig[5].val());
    subset_mobius(&f, &mut b);
    assert_eq!(b, orig);
    let mut one = vec![fp(9)];
    subset_zeta(&f, &mut one);
    assert_eq!(vals(&one), vec![9]);
}

#[test]
fn or_convolution_by_transforms() {
    let f = FpField::<P>::new();
    let x = vec![fp(1), fp(2), fp(3), fp(4)];
    let y = vec![fp(5), fp(6), fp(7), fp(8)];
    let (mut zx, mut zy) = (x.clone(), y.clone());
    subset_zeta(&f, &mut zx);
    subset_zeta(&f, &mut zy);
    let mut h: Vec<Fp<P>> = zx.iter().zip(zy.iter()).map(|(a, b)| a.mul(*b)).collect();
    subset_mobius(&f, &mut h);
    let mut naive = vec![0u32; 4];
    for s in 0..4 {
        for t in 0..4 {
            naive[s | t] += x[s].val() * y[t].val();
        }
    }
    assert_eq!(vals(&h), naive);
}

#[test]
fn subset_convolution_matches_naive() {
    let f = FpField::<P>::new();
    let n = 4;
    let x: Vec<Fp<P>> = (0..1u32 << n).map(|i| fp(i * 3 + 1)).collect();
    let y: Vec<Fp<P>> = (0..1u32 << n).map(|i| fp(i * i + 2)).collect();
    let h = subset_convolve(&f, x.clone(), y.clone());
    for s in 0..1usize << n {
        let mut acc = fp(0);
        for t in 0..1usize << n {
            if t & s == t {
                acc = acc.add(x[t].mul(y[s ^ t]));
            }
        }
        assert_eq!(h[s], acc);
    }
    assert_eq!(vals(&subset_convolve(&f, vec![fp(3)], vec![fp(5)])), vec![15]);
}

#[test]
fn ranked_transforms_invert() {
    let f = FpField::<P>::new();
    let x: Vec<Fp<P>> = (0..8u32).map(|i| fp(i + 10)).collect();
    let layers = ranked_subset_zeta(&f, x.clone());
    assert_eq!(layers.len(), 4);
    assert_eq!(vals(&layers[0]), vec![10; 8]);
    assert_eq!(layers[1][3].val(), 11 + 12);
    assert_eq!(layers[2][7].val(), 13 + 15 + 16);
    assert_eq!(ranked_subset_mobius(&f, layers), x);
}
