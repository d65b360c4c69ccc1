use lib::num::arithmetic::{
    euler_phi, mobius, mobius_table, multiplicative, multiplicative_table, num_divisors, phi_table,
    sum_divisors,
};
use lib::sequence::rolling_hash::{sequence_concat, Concat, RollingHash};
use lib::num::factorial::Factorial;
use lib::num::fp::{Fp, FpField};
use lib::num::gcd::{gcd, lcm};
use lib::num::lpf::Lpf;
use lib::num::mersenne::Mersenne;
use lib::num::prime::{factorize, is_prime, primes, spf};

const P: u32 = 998244353;

fn fp(n: u32) -> Fp<P> {
    Fp::<P>::new(n)
}

#[test]
fn gcd_examples() {
    assert_eq!(gcd(12, 18), 6);
    assert_eq!(gcd(0, 7), 7);
    assert_eq!(gcd(7, 0), 7);
    assert_eq!(gcd(0, 0), 0);
    assert_eq!(gcd(17, 5), 1);
}

#[test]
fn lcm_examples() {
    assert_eq!(lcm(4, 6), 12);
    assert_eq!(lcm(0, 5), 0);
    assert_eq!(lcm(0, 0), 0);
    assert_eq!(lcm(7, 7), 7);
}

#[test]
fn gcd_times_lcm_is_product() {
    for a in 1u64..30 {
        for b in 1u64..30 {
            assert_eq!(gcd(a, b) * lcm(a, b), a * b);
        }
    }
}

#[test]
fn multiplicative_functions_of_twelve() {
    let f = [(2u64, 2u32), (3, 1)];
    assert_eq!(euler_phi(&f), 4);
    assert_eq!(mobius(&f), 0);
    assert_eq!(num_divisors(&f), 6);
    assert_eq!(sum_divisors(&f), 28);
}

#[test]
fn multiplicative_functions_of_thirty() {
    let f = [(2u64, 1u32), (3, 1), (5, 1)];
    assert_eq!(euler_phi(&f), 8);
    assert_eq!(mobius(&f), -1);
    assert_eq!(num_divisors(&f), 8);
    assert_eq!(sum_divisors(&f), 72);
}

#[test]
fn multiplicative_functions_of_one() {
    let f: [(u64, u32); 0] = [];
    assert_eq!(euler_phi(&f), 1);
    assert_eq!(mobius(&f), 1);
    assert_eq!(num_divisors(&f), 1);
    assert_eq!(sum_divisors(&f), 1);
}

#[test]
fn phi_table_small() {
    assert_eq!(phi_table(10), vec![1, 1, 1, 2, 2, 4, 2, 6, 4, 6, 4]);
}

#[test]
fn mobius_table_small() {
    assert_eq!(mobius_table(10), vec![1, 1, -1, -1, 0, -1, 1, -1, 0, 0, 1]);
}

#[test]
fn tables_agree_with_factorizations() {
    let phi = phi_table(60);
    let mu = mobius_table(60);
    for m in 1..=60u64 {
        let f = factorize(m);
        assert_eq!(phi[m as usize], euler_phi(&f));
        assert_eq!(mu[m as usize], mobius(&f));
    }
}

#[test]
fn is_prime_examples() {
    assert!(!is_prime(0));
    assert!(!is_prime(1));
    assert!(is_prime(2));
    assert!(is_prime(97));
    assert!(!is_prime(91));
    assert!(is_prime(998244353));
}

#[test]
fn primes_sieve_below_n() {
    assert_eq!(primes(30), vec![2, 3, 5, 7, 11, 13, 17, 19, 23, 29]);
    assert_eq!(primes(29), vec![2, 3, 5, 7, 11, 13, 17, 19, 23]);
    assert_eq!(primes(5), vec![2, 3]);
    assert_eq!(primes(2), Vec::<usize>::new());
    assert_eq!(primes(1), Vec::<usize>::new());
    assert_eq!(primes(0), Vec::<usize>::new());
}

#[test]
fn primes_below_n() {
    assert_eq!(lib::num::primes::primes(29), vec![2, 3, 5, 7, 11, 13, 17, 19, 23]);
    assert_eq!(lib::num::primes::primes(2), Vec::<usize>::new());
}

#[test]
fn spf_table() {
    assert_eq!(spf(10), vec![0, 1, 2, 3, 2, 5, 2, 7, 2, 3, 2]);
}

#[test]
fn factorize_examples() {
    assert_eq!(factorize(1), vec![]);
    assert_eq!(factorize(360), vec![(2, 3), (3, 2), (5, 1)]);
    assert_eq!(factorize(97), vec![(97, 1)]);
    assert_eq!(factorize(1_000_000_007 * 2), vec![(2, 1), (1_000_000_007, 1)]);
}

#[test]
fn lpf_table() {
    let t = Lpf::new(60);
    assert_eq!(t.bound(), 60);
    assert_eq!(t.lpf(15), 3);
    assert_eq!(t.lpf(49), 7);
    assert!(t.is_prime(59));
    assert!(!t.is_prime(57));
    assert!(!t.is_prime(0));
    assert!(!t.is_prime(1));
    assert_eq!(t.prime_factors(60), vec![(2, 2), (3, 1), (5, 1)]);
    assert_eq!(t.factorize(1), vec![]);
    assert_eq!(t.factorize(45), vec![(3, 2), (5, 1)]);
    assert_eq!(t.primes(), vec![2, 3, 5, 7, 11, 13, 17, 19, 23, 29, 31, 37, 41, 43, 47, 53, 59]);
    assert!(t.is_squarefree(30));
    assert!(!t.is_squarefree(12));
    assert!(t.is_squarefree(1));
    assert_eq!(t.omega(60), 3);
    assert_eq!(t.big_omega(60), 4);
    assert_eq!(t.radical(60), 30);
    assert_eq!(t.radical(1), 1);
}

#[test]
fn lpf_agrees_with_trial_division() {
    let t = Lpf::new(200);
    for m in 1..=200usize {
        let f: Vec<(u64, u32)> = t.factorize(m).iter().map(|&(p, e)| (p as u64, e)).collect();
        assert_eq!(f, factorize(m as u64));
    }
}

#[test]
fn fp_arithmetic() {
    assert_eq!(fp(P).val(), 0);
    assert_eq!(fp(P + 5).val(), 5);
    assert_eq!(fp(P - 1).add(fp(2)).val(), 1);
    assert_eq!(fp(1).sub(fp(2)).val(), P - 1);
    assert_eq!(fp(3).neg().val(), P - 3);
    assert_eq!(fp(0).neg().val(), 0);
    assert_eq!(fp(100000).mul(fp(100000)).val(), (10_000_000_000u64 % P as u64) as u32);
    assert_eq!(fp(2).pow(10).val(), 1024);
    assert_eq!(fp(5).pow(0).val(), 1);
    assert_eq!(fp(3).inv().val(), 332748118);
    assert_eq!(fp(6).div(fp(3)).val(), 2);
}

#[test]
fn fp_inverse_law() {
    for a in 1..200u32 {
        assert_eq!(fp(a).mul(fp(a).inv()).val(), 1);
    }
}

#[test]
fn fermat_little_theorem() {
    for a in 1..50u32 {
        assert_eq!(fp(a).pow((P - 1) as u64).val(), 1);
    }
}

#[test]
fn mersenne_arithmetic() {
    let m = (1u64 << 61) - 1;
    assert_eq!(Mersenne::<61>::new(m).val(), 0);
    assert_eq!(Mersenne::<61>::new(m + 3).val(), 3);
    assert_eq!(Mersenne::<61>::new(u64::MAX).val(), u64::MAX % m);
    let a = Mersenne::<61>::new(m - 1);
    assert_eq!(a.add(Mersenne::<61>::new(2)).val(), 1);
    assert_eq!(Mersenne::<61>::new(1).sub(Mersenne::<61>::new(2)).val(), m - 1);
    assert_eq!(Mersenne::<61>::new(5).neg().val(), m - 5);
    assert_eq!(Mersenne::<61>::new(2).pow(61).val(), 1);
    assert_eq!(Mersenne::<61>::new(2).inv().val(), 1u64 << 60);
    assert_eq!(Mersenne::<61>::new(1).div(Mersenne::<61>::new(2)).val(), 1u64 << 60);
    let x = Mersenne::<61>::new(123456789123456789);
    let y = Mersenne::<61>::new(987654321987654321);
    let expected = ((x.val() as u128 * y.val() as u128) % m as u128) as u64;
    assert_eq!(x.mul(y).val(), expected);
}

#[test]
fn mersenne_small_modulus() {
    assert_eq!(Mersenne::<7>::new(200).val(), 200 % 127);
    assert_eq!(Mersenne::<7>::new(100).mul(Mersenne::<7>::new(100)).val(), 10000 % 127);
    assert_eq!(Mersenne::<7>::new(3).mul(Mersenne::<7>::new(3).inv()).val(), 1);
}

#[test]
fn factorial_table() {
    let t = Factorial::new(FpField::<P>::new(), 10);
    assert_eq!(t.factorial(0).val(), 1);
    assert_eq!(t.factorial(5).val(), 120);
    assert_eq!(t.inv_factorial(3).val(), fp(6).inv().val());
    assert_eq!(t.inv(3).val(), 332748118);
    assert_eq!(t.binomial(5, 2).val(), 10);
    assert_eq!(t.binomial(5, 6).val(), 0);
    assert_eq!(t.binomial(10, 0).val(), 1);
    assert_eq!(t.falling_factorial(5, 2).val(), 20);
    assert_eq!(t.falling_factorial(5, 6).val(), 0);
    assert_eq!(t.multinomial(&[1, 2, 3]).val(), 60);
    assert_eq!(t.multinomial(&[]).val(), 1);
}

#[test]
fn pascal_rule() {
    let t = Factorial::new(FpField::<P>::new(), 20);
    for a in 1..=20usize {
        for b in 1..=a {
            assert_eq!(t.binomial(a, b), t.binomial(a - 1, b - 1).add(t.binomial(a - 1, b)));
        }
    }
}

#[test]
fn lpf_divisors() {
    let t = Lpf::new(100);
    assert_eq!(t.divisors(1), vec![1]);
    assert_eq!(t.divisors(12), vec![1, 2, 4, 3, 6, 12]);
    assert_eq!(t.divisors(97), vec![1, 97]);
    let mut d = t.divisors(60);
    d.sort();
    assert_eq!(d, vec![1, 2, 3, 4, 5, 6, 10, 12, 15, 20, 30, 60]);
}

#[test]
fn lpf_divisors_match_brute_force() {
    let t = Lpf::new(100);
    for m in 1..=100usize {
        let mut d = t.divisors(m);
        d.sort();
        let expected: Vec<usize> = (1..=m).filter(|k| m % k == 0).collect();
        assert_eq!(d, expected);
        let f: Vec<(u64, u32)> = t.factorize(m).iter().map(|&(p, e)| (p as u64, e)).collect();
        assert_eq!(d.len() as u64, num_divisors(&f));
    }
}

#[test]
fn multiplicative_over_concatenation() {
    let base = Mersenne::<61>::new(131);
    let s: Vec<u8> = (0u8..40).map(|i| i.wrapping_mul(37).wrapping_add(5)).collect();
    let h = RollingHash::from_slice(base, &s);
    let monoid = Concat(base);
    let r = multiplicative(&monoid, &[(2, 1), (3, 2)], |p: u64, e: u32| h.hash(p as usize..p as usize + e as usize));
    assert_eq!(r, h.hash(2..5));
    let empty = multiplicative(&monoid, &[], |p: u64, e: u32| h.hash(p as usize..p as usize + e as usize));
    assert_eq!(empty, h.hash(0..0));
}

#[test]
fn multiplicative_table_over_concatenation() {
    let base = Mersenne::<61>::new(131);
    let s: Vec<u8> = (0u8..40).map(|i| i.wrapping_mul(11).wrapping_add(3)).collect();
    let h = RollingHash::from_slice(base, &s);
    let monoid = Concat(base);
    let f = |p: usize, e: u32| h.hash(p..p + e as usize);
    let table = multiplicative_table(&monoid, 12, f);
    assert_eq!(table.len(), 13);
    assert_eq!(table[0], h.hash(0..0));
    assert_eq!(table[1], h.hash(0..0));
    assert_eq!(table[7], f(7, 1));
    assert_eq!(table[8], f(2, 3));
    assert_eq!(table[12], sequence_concat(f(3, 1), f(2, 2)));
    assert_eq!(table[10], sequence_concat(f(5, 1), f(2, 1)));
}
