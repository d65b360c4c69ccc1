use lib::num::mersenne::Mersenne;
use lib::sequence::border_array::border_array;
use lib::sequence::eq::elem_eq;
use lib::sequence::manacher::manacher;
use lib::sequence::num_subsequences::num_subsequences;
use lib::num::fp::{Fp, FpField};
use lib::sequence::occurrence::{next_occurrence, previous_occurrence};
use lib::sequence::rolling_hash::{sequence_concat, RollingHash};
use lib::sequence::subsequence_automaton::SubsequenceAutomaton;
use lib::sequence::z_algorithm::z_algorithm;

#[test]
fn manacher_examples() {
    assert_eq!(manacher(b"abaaba"), vec![1, 2, 1, 1, 2, 1]);
    assert_eq!(manacher(b"aaaaa"), vec![1, 2, 3, 2, 1]);
    assert_eq!(manacher::<u8>(&[]), Vec::<usize>::new());
}

#[test]
fn manacher_matches_brute_force() {
    let s = b"abacabadabacaba";
    let r = manacher(s);
    for i in 0..s.len() {
        let mut x = 0;
        while x <= i && i + x < s.len() && s[i - x] == s[i + x] {
            x += 1;
        }
        assert_eq!(r[i], x);
    }
}

#[test]
fn z_algorithm_examples() {
    assert_eq!(z_algorithm(b"aabxaab"), vec![7, 1, 0, 0, 3, 1, 0]);
    assert_eq!(z_algorithm(b"aaaa"), vec![4, 3, 2, 1]);
    assert_eq!(z_algorithm::<u8>(&[]), Vec::<usize>::new());
}

#[test]
fn border_array_examples() {
    assert_eq!(border_array(b"abab"), vec![0, 0, 0, 1, 2]);
    assert_eq!(border_array(b"aabaaab"), vec![0, 0, 1, 0, 1, 2, 2, 3]);
    assert_eq!(border_array::<u8>(&[]), vec![0]);
}

#[test]
fn occurrences() {
    let s = [0, 1, 0, 2, 1];
    assert_eq!(previous_occurrence(&s, 3), vec![None, None, Some(0), None, Some(1)]);
    assert_eq!(next_occurrence(&s, 3), vec![Some(2), Some(4), None, None, None]);
}

#[test]
fn elem_eq_examples() {
    assert!(elem_eq(&3u32, &3u32));
    assert!(!elem_eq(&'a', &'b'));
}

#[test]
fn rolling_hash_values() {
    let base = Mersenne::<61>::new(10);
    let h = RollingHash::from_slice(base, &[1u32, 2, 3]);
    assert_eq!(h.len(), 3);
    assert!(!h.is_empty());
    assert_eq!(h.hash(0..3).value().val(), 123);
    assert_eq!(h.hash(1..3).value().val(), 23);
    assert_eq!(h.hash(2..2).value().val(), 0);
    assert_eq!(h.hash(1..3).len(), 2);
    assert!(h.hash(1..1).is_empty());
}

#[test]
fn rolling_hash_equal_substrings() {
    let s = b"abcabcab";
    let h = RollingHash::from_slice(Mersenne::<61>::new(1_000_003), s);
    assert_eq!(h.hash(0..3), h.hash(3..6));
    assert_eq!(h.hash(0..5), h.hash(3..8));
    assert_ne!(h.hash(0..3), h.hash(1..4));
}

#[test]
fn concatenation_of_hashes() {
    let h = RollingHash::from_slice(Mersenne::<61>::new(31), b"hello world");
    for l in 0..=11 {
        for m in l..=11 {
            for r in m..=11 {
                assert_eq!(sequence_concat(h.hash(l..m), h.hash(m..r)), h.hash(l..r));
            }
        }
    }
}

#[test]
fn empty_rolling_hash() {
    let h = RollingHash::from_slice(Mersenne::<61>::new(7), &[0u8; 0]);
    assert_eq!(h.len(), 0);
    assert!(h.is_empty());
}

#[test]
fn subsequence_automaton_queries() {
    let a = SubsequenceAutomaton::from_slice(&[0, 1, 0, 2], 3);
    assert_eq!(a.len(), 4);
    assert!(!a.is_empty());
    assert_eq!(a.sigma(), 3);
    assert_eq!(a.next(0, 1), Some(1));
    assert_eq!(a.next(1, 0), Some(2));
    assert_eq!(a.next(2, 1), None);
    assert_eq!(a.next(4, 0), None);
    assert!(a.accepts(&[0, 0, 2]));
    assert!(a.accepts(&[]));
    assert!(!a.accepts(&[2, 0]));
    assert!(!a.accepts(&[0, 0, 0]));
}

#[test]
fn empty_subsequence_automaton() {
    let a = SubsequenceAutomaton::from_slice(&[], 2);
    assert!(a.is_empty());
    assert!(a.accepts(&[]));
    assert!(!a.accepts(&[1]));
}

use lib::sequence::permutation::{
    next_permutation, next_permutation_by, next_permutation_by_key, prev_permutation,
    prev_permutation_by, prev_permutation_by_key,
};

#[test]
fn next_permutation_cycle() {
    let mut a = [1, 2, 3];
    let expected = [[1, 3, 2], [2, 1, 3], [2, 3, 1], [3, 1, 2], [3, 2, 1]];
    for e in expected.iter() {
        assert!(next_permutation(&mut a));
        assert_eq!(&a, e);
    }
    assert!(!next_permutation(&mut a));
    assert_eq!(a, [1, 2, 3]);
}

#[test]
fn next_permutation_with_repeats() {
    let mut a = [1, 1, 2];
    assert!(next_permutation(&mut a));
    assert_eq!(a, [1, 2, 1]);
    assert!(next_permutation(&mut a));
    assert_eq!(a, [2, 1, 1]);
    assert!(!next_permutation(&mut a));
    assert_eq!(a, [1, 1, 2]);
}

#[test]
fn next_permutation_counts_rearrangements() {
    let mut a = [0, 1, 2, 3];
    let mut count = 1;
    while next_permutation(&mut a) {
        count += 1;
    }
    assert_eq!(count, 24);
    let mut b = ['a', 'a', 'b', 'b'];
    let mut count = 1;
    while next_permutation(&mut b) {
        count += 1;
    }
    assert_eq!(count, 6);
}

#[test]
fn next_permutation_of_short_slices() {
    let mut e: [u8; 0] = [];
    assert!(!next_permutation(&mut e));
    let mut one = [7];
    assert!(!next_permutation(&mut one));
    assert_eq!(one, [7]);
}

#[test]
fn prev_permutation_examples() {
    let mut a = [1, 3, 2];
    assert!(prev_permutation(&mut a));
    assert_eq!(a, [1, 2, 3]);
    assert!(!prev_permutation(&mut a));
    assert_eq!(a, [3, 2, 1]);
}

#[test]
fn prev_undoes_next() {
    let mut a = [2, 4, 1, 3, 3];
    for _ in 0..20 {
        let before = a;
        if next_permutation(&mut a) {
            let mut b = a;
            assert!(prev_permutation(&mut b));
            assert_eq!(b, before);
        }
    }
}

#[test]
fn next_permutation_by_reverse_order() {
    let mut a = [3, 2, 1];
    assert!(next_permutation_by(&mut a, |x: &i32, y: &i32| y.cmp(x)));
    assert_eq!(a, [3, 1, 2]);
    let mut b = [1, 2, 3];
    assert!(!next_permutation_by(&mut b, |x: &i32, y: &i32| y.cmp(x)));
    assert_eq!(b, [3, 2, 1]);
}

#[test]
fn prev_permutation_by_reverse_order() {
    let mut a = [3, 1, 2];
    assert!(prev_permutation_by(&mut a, |x: &i32, y: &i32| y.cmp(x)));
    assert_eq!(a, [3, 2, 1]);
    assert!(!prev_permutation_by(&mut a, |x: &i32, y: &i32| y.cmp(x)));
    assert_eq!(a, [1, 2, 3]);
}

#[test]
fn next_permutation_by_key_absolute_value() {
    let mut a = [-1, 2, -3];
    assert!(next_permutation_by_key(&mut a, |x: &i32| x.abs()));
    assert_eq!(a, [-1, -3, 2]);
    let mut count = 1;
    let mut b = [1, -1, 2];
    while next_permutation_by_key(&mut b, |x: &i32| x.abs()) {
        count += 1;
    }
    assert_eq!(count, 3);
}

#[test]
fn prev_permutation_by_key_absolute_value() {
    let mut a = [-1, -3, 2];
    assert!(prev_permutation_by_key(&mut a, |x: &i32| x.abs()));
    assert_eq!(a, [-1, 2, -3]);
    assert!(!prev_permutation_by_key(&mut a, |x: &i32| x.abs()));
    assert_eq!(a, [-3, 2, -1]);
}

use lib::monge::{monge_dp, monotone_minima};

#[test]
fn monotone_minima_distance_rows() {
    let argmin = monotone_minima(4, 5, |i: usize, j: usize| {
        let d = j as i64 - i as i64;
        d * d
    });
    assert_eq!(argmin, vec![0, 1, 2, 3]);
}

#[test]
fn monotone_minima_takes_leftmost_of_ties() {
    let argmin = monotone_minima(4, 5, |i: usize, j: usize| (j as i64 - 2 * i as i64).abs() / 2);
    assert_eq!(argmin, vec![0, 1, 3, 3]);
}

#[test]
fn monotone_minima_empty() {
    assert!(monotone_minima(0, 0, |_i: usize, _j: usize| 0i64).is_empty());
    assert_eq!(monotone_minima(3, 1, |i: usize, _j: usize| i as i64), vec![0, 0, 0]);
}

#[test]
fn num_subsequences_examples() {
    let f = FpField::<998244353>::new();
    assert_eq!(num_subsequences(&f, &[0, 1, 2], 3).val(), 8);
    assert_eq!(num_subsequences(&f, &[0, 0, 0], 1).val(), 4);
    assert_eq!(num_subsequences(&f, &[0, 1, 0], 2).val(), 7);
    assert_eq!(num_subsequences(&f, &[], 0).val(), 1);
    assert_eq!(num_subsequences(&f, &[1, 0, 1, 0], 5).val(), 12);
}

#[test]
fn num_subsequences_wraps_in_small_field() {
    let f = FpField::<7>::new();
    let r: Fp<7> = num_subsequences(&f, &[0, 1, 2], 3);
    assert_eq!(r.val(), 1);
}

fn naive_dp(n: usize, zero: i64, cost: &dyn Fn(usize, usize) -> i64) -> Vec<i64> {
    let mut dp = vec![0i64; n];
    if n > 0 {
        dp[0] = zero;
    }
    for i in 1..n {
        dp[i] = (0..i).map(|j| dp[j] + cost(j, i)).min().unwrap();
    }
    dp
}

#[test]
fn monge_dp_squares() {
    let cost = |j: usize, i: usize| ((i - j) * (i - j)) as i64;
    assert_eq!(monge_dp(5, 0, cost), vec![0, 1, 2, 3, 4]);
    assert_eq!(monge_dp(0, 0, cost), Vec::<i64>::new());
    assert_eq!(monge_dp(1, 7, cost), vec![7]);
}

#[test]
fn monge_dp_matches_naive() {
    let cost = |j: usize, i: usize| ((i - j) * (i - j)) as i64 + 10;
    assert_eq!(monge_dp(40, 3, cost), naive_dp(40, 3, &cost));
    assert_eq!(monge_dp(7, 0, cost)[4], 26);
    assert_eq!(monge_dp(7, 0, cost)[6], 38);
}
