//! The rank engine on concrete data — midranks at ties, permutation
//! invariance, the rank-sum identity — and the numeric trait layer.

use stattest::numeric::{Abs, Bounded, One, Quantize, Zero};
use stattest::ranks::{Occurrence, Ranks};

#[test]
fn ranks_distinct() {
    let values: Vec<i64> = vec![30, 10, 20];
    let (ranks2, tie) = values.ranks();
    // Doubled ranks: 10 is rank 1, 20 rank 2, 30 rank 3.
    assert_eq!(ranks2, vec![6, 2, 4]);
    assert_eq!(tie, 0);
}

#[test]
fn ranks_sum_is_rank_sum() {
    let values: Vec<i64> = vec![5, -3, 12, 7, 0, -8, 21, 14];
    let (ranks2, _) = values.ranks();
    let n = values.len() as u64;
    // The rank sum law: doubled ranks add up to n (n + 1).
    assert_eq!(ranks2.iter().sum::<u64>(), n * (n + 1));
}

#[test]
fn ranks_with_ties() {
    let values: Vec<i64> = vec![10, 20, 20, 30];
    let (ranks2, tie) = values.ranks();
    // 20 and 20 share the midrank 2.5, doubled 5; one tie group of two.
    assert_eq!(ranks2, vec![2, 5, 5, 8]);
    assert_eq!(tie, 6);
}

#[test]
fn ranks_all_equal() {
    let values: Vec<i64> = vec![7, 7, 7];
    let (ranks2, tie) = values.ranks();
    // Everything shares the midrank 2, and the tie correction is 3^3 - 3.
    assert_eq!(ranks2, vec![4, 4, 4]);
    assert_eq!(tie, 24);
}

#[test]
fn ranks_empty() {
    let values: Vec<i64> = vec![];
    let (ranks2, tie) = values.ranks();
    assert_eq!(ranks2, Vec::<u64>::new());
    assert_eq!(tie, 0);
}

#[test]
fn ranks_negative_values() {
    let values: Vec<i64> = vec![-5, 0, 5];
    let (ranks2, tie) = values.ranks();
    assert_eq!(ranks2, vec![2, 4, 6]);
    assert_eq!(tie, 0);
}

#[test]
fn ranks_permutation_invariance() {
    // Permuting the input permutes the ranks the same way.
    let values: Vec<i64> = vec![12, 5, 5, 30, -2];
    let shuffled: Vec<i64> = vec![5, 30, -2, 12, 5];
    let (r1, tie1) = values.ranks();
    let (r2, tie2) = shuffled.ranks();
    assert_eq!(tie1, tie2);
    assert_eq!(r1[0], r2[3]);
    assert_eq!(r1[1], r2[0]);
    assert_eq!(r1[2], r2[4]);
    assert_eq!(r1[3], r2[1]);
    assert_eq!(r1[4], r2[2]);
}

#[test]
fn weighted_ranks() {
    let values: Vec<(i64, u64)> = vec![(10, 2), (20, 1)];
    let (ranks2, tie) = values.ranks();
    // The weight-two observation fills positions 1 and 2, midrank 1.5;
    // the next observation takes rank 3.
    assert_eq!(ranks2, vec![3, 6]);
    assert_eq!(tie, 6);
}

#[test]
fn weighted_ranks_match_repetition() {
    let weighted: Vec<(i64, u64)> = vec![(4, 3), (9, 1)];
    let repeated: Vec<i64> = vec![4, 4, 4, 9];
    let (rw, tie_w) = weighted.ranks();
    let (rr, tie_r) = repeated.ranks();
    assert_eq!(tie_w, tie_r);
    assert_eq!(rw[0], rr[0]);
    assert_eq!(rw[1], rr[3]);
}

#[test]
fn occurrences() {
    assert_eq!(().to_occurrence(), 1);
    assert_eq!(3u8.to_occurrence(), 3);
    assert_eq!(300u16.to_occurrence(), 300);
    assert_eq!(70000u32.to_occurrence(), 70000);
    assert_eq!(5usize.to_occurrence(), 5);
}

#[test]
fn zero_one_bounds() {
    assert_eq!(<i32 as Zero>::zero(), 0);
    assert_eq!(<i64 as One>::one(), 1);
    assert_eq!(<i8 as Bounded>::upper_bound(), 127);
    assert_eq!(<i8 as Bounded>::lower_bound(), -127);
    assert_eq!(<i16 as Bounded>::upper_bound(), i16::MAX);
    assert_eq!(<i16 as Bounded>::lower_bound(), i16::MIN + 1);
    assert_eq!(<i32 as Bounded>::upper_bound(), i32::MAX);
    assert_eq!(<i32 as Bounded>::lower_bound(), -i32::MAX);
}

#[test]
fn absolute_values() {
    assert_eq!((-5i8).abs(), 5);
    assert_eq!(7i16.abs(), 7);
    assert_eq!((-1234i32).abs(), 1234);
    assert_eq!((-99999999i64).abs(), 99999999);
    assert_eq!(0i64.abs(), 0);
}

#[test]
fn quantize_endpoints() {
    // The whole range maps onto the symmetric bounds, zero to zero.
    assert_eq!(<i8 as Quantize<i64>>::quantize(-100, 100), -127);
    assert_eq!(<i8 as Quantize<i64>>::quantize(0, 100), 0);
    assert_eq!(<i8 as Quantize<i64>>::quantize(100, 100), 127);
    assert_eq!(<i16 as Quantize<i64>>::quantize(100, 100), i16::MAX);
    assert_eq!(<i32 as Quantize<i64>>::quantize(-100, 100), -i32::MAX);
}

#[test]
fn quantize_midpoints() {
    // Halves and fifths of the range, truncated toward zero.
    assert_eq!(<i8 as Quantize<i64>>::quantize(-50, 100), -63);
    assert_eq!(<i8 as Quantize<i64>>::quantize(50, 100), 63);
    assert_eq!(<i8 as Quantize<i64>>::quantize(-20, 100), -25);
    assert_eq!(<i8 as Quantize<i64>>::quantize(20, 100), 25);
    assert_eq!(<i16 as Quantize<i64>>::quantize(50, 100), i16::MAX / 2);
    assert_eq!(<i32 as Quantize<i64>>::quantize(-50, 100), -(i32::MAX / 2));
}
