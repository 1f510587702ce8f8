//! End-to-end scenarios of the Wilcoxon signed-rank test.  The estimates
//! the library reports are doubled rank sums, the effect size is an exact
//! rational and the p-value an exact or normal-approximate value; the
//! helpers below turn them back into the familiar floats.

use statrs::distribution::{ContinuousCDF, Normal};
use stattest::signed_rank::DistributionValue;
use stattest::wilcoxon::{StatisticalTest, TestError, WilcoxonWTest};

fn eval_cdf(value: DistributionValue) -> f64 {
    match value {
        DistributionValue::Exact {
            numerator,
            log2_denominator,
        } => numerator as f64 / 2f64.powi(log2_denominator as i32),
        DistributionValue::NormalApprox {
            n_eff,
            tie_correction,
            at_doubled,
        } => {
            let mean = (n_eff * (n_eff + 1)) as f64 / 4.0;
            let var = mean * (2 * n_eff + 1) as f64 / 6.0 - tie_correction as f64 / 48.0;
            let normal = Normal::new(mean, var.sqrt()).unwrap();
            2.0 * normal.cdf(at_doubled as f64 / 2.0)
        }
    }
}

fn estimate_of(test: &WilcoxonWTest) -> (f64, f64) {
    let (minus, plus) = test.estimate();
    (minus as f64 / 2.0, plus as f64 / 2.0)
}

fn effect_size_of(test: &WilcoxonWTest) -> f64 {
    let (num, den) = test.effect_size();
    (num as f64 / 2.0) / (den as f64 / 2.0)
}

fn p_value_of(test: &WilcoxonWTest) -> f64 {
    eval_cdf(test.p_value())
}

/// Doubles each sample so that the half-unit observations become integers;
/// ranking only reads the order of the absolute differences, which doubling
/// preserves.
fn doubled(values: &[f64]) -> Vec<i64> {
    values.iter().map(|v| (v * 2.0) as i64).collect()
}

#[test]
fn paired() {
    let x = vec![8.0, 6.0, 5.5, 11.0, 8.5, 5.0, 6.0, 6.0];
    let y = vec![8.5, 9.0, 6.5, 10.5, 9.0, 7.0, 6.5, 7.0];
    let test = WilcoxonWTest::paired(&doubled(&x), &doubled(&y)).unwrap();
    assert_eq!(estimate_of(&test), (33.5, 2.5));
    assert_eq!(p_value_of(&test), 0.027785782704095215);
    assert_eq!(effect_size_of(&test), 0.06944444444444445);
}

#[test]
fn paired_2() {
    let x = vec![209, 200, 177, 169, 159, 169, 187, 198];
    let y = vec![151, 168, 147, 164, 166, 163, 176, 188];
    let test = WilcoxonWTest::paired(&x, &y).unwrap();
    assert_eq!(estimate_of(&test), (3.0, 33.0));
    assert_eq!(p_value_of(&test), 0.0390625);
    assert_eq!(effect_size_of(&test), 0.08333333333333333);
}

#[test]
fn paired_integers() {
    let x = vec![16, 12, 11, 22, 17, 10, 12, 12];
    let y = vec![17, 18, 13, 21, 18, 14, 13, 14];
    let test = WilcoxonWTest::paired(&x, &y).unwrap();
    assert_eq!(estimate_of(&test), (33.5, 2.5));
    assert_eq!(p_value_of(&test), 0.027785782704095215);
    assert_eq!(effect_size_of(&test), 0.06944444444444445);
}

#[test]
fn paired_length_mismatch() {
    let x = vec![1, 2, 3];
    let y = vec![1, 2];
    assert_eq!(
        WilcoxonWTest::paired(&x, &y),
        Err(TestError::LengthMismatch)
    );
}

#[test]
fn paired_empty() {
    let x: Vec<i64> = vec![];
    let y: Vec<i64> = vec![];
    assert_eq!(WilcoxonWTest::paired(&x, &y), Err(TestError::EmptyInput));
}

#[test]
fn weighted_matches_expansion() {
    // A pair of weight three behaves exactly as the same pair three times.
    let x = vec![5, 9, 14];
    let y = vec![7, 6, 14];
    let w = vec![3, 1, 2];
    let weighted = WilcoxonWTest::weighted_paired(&x, &y, &w).unwrap();
    let x_expanded = vec![5, 5, 5, 9, 14, 14];
    let y_expanded = vec![7, 7, 7, 6, 14, 14];
    let expanded = WilcoxonWTest::paired(&x_expanded, &y_expanded).unwrap();
    assert_eq!(weighted, expanded);
}

#[test]
fn weighted_length_mismatch() {
    let x = vec![1, 2];
    let y = vec![1, 2];
    let w = vec![1];
    assert_eq!(
        WilcoxonWTest::weighted_paired(&x, &y, &w),
        Err(TestError::LengthMismatch)
    );
}

#[test]
fn radix_path_identical() {
    let x = vec![209, 200, 177, 169, 159, 169, 187, 198];
    let y = vec![151, 168, 147, 164, 166, 163, 176, 188];
    let comparison = WilcoxonWTest::paired(&x, &y);
    let radix = WilcoxonWTest::voracious_paired(&x, &y);
    assert_eq!(comparison, radix);
}

#[test]
fn radix_path_identical_with_ties() {
    let x = vec![16, 12, 11, 22, 17, 10, 12, 12, 5];
    let y = vec![17, 18, 13, 21, 18, 14, 13, 14, 5];
    let comparison = WilcoxonWTest::paired(&x, &y);
    let radix = WilcoxonWTest::voracious_paired(&x, &y);
    assert_eq!(comparison, radix);
}

#[test]
fn quantized_agrees_on_separated_data() {
    // The gaps between distinct absolute differences are huge relative to
    // `2 * scale / i32::MAX`, so quantization preserves their order and the
    // quantized test agrees with the raw one.
    let x = vec![1000, 4000, 9000, 2000];
    let y = vec![2000, 2000, 4000, 2000];
    let raw = WilcoxonWTest::paired(&x, &y).unwrap();
    let quantized = WilcoxonWTest::quantized_paired(&x, &y).unwrap();
    assert_eq!(raw.estimate(), quantized.estimate());
    assert_eq!(raw.effect_size(), quantized.effect_size());
    assert_eq!(raw.p_value(), quantized.p_value());
    let voracious = WilcoxonWTest::voracious_quantized_paired(&x, &y).unwrap();
    assert_eq!(quantized, voracious);
}

#[test]
fn quantized_all_zero() {
    let x = vec![4, 5, 6];
    let y = vec![4, 5, 6];
    let test = WilcoxonWTest::quantized_paired(&x, &y).unwrap();
    assert_eq!(test.estimate(), (0, 0));
    assert_eq!(effect_size_of(&test), 0.0);
    assert_eq!(p_value_of(&test), 1.0);
}

#[test]
fn effect_size_stays_below_half() {
    let x = vec![1, 2, 3, 4, 5, 6, 7, 80];
    let y = vec![8, 7, 6, 5, 4, 3, 2, 1];
    let test = WilcoxonWTest::paired(&x, &y).unwrap();
    let effect = effect_size_of(&test);
    assert!((0.0..=0.5).contains(&effect));
}

#[test]
fn rank_sums_partition_without_zeros() {
    // Signed-rank symmetry: with no zero differences the two rank sums
    // exhaust the whole rank sum n (n + 1) / 2 (stated doubled).
    let x = vec![16, 12, 11, 22, 17, 10, 12, 12];
    let y = vec![17, 18, 13, 21, 18, 14, 13, 14];
    let test = WilcoxonWTest::paired(&x, &y).unwrap();
    let (minus, plus) = test.estimate();
    let n = x.len() as u64;
    assert_eq!(minus + plus, n * (n + 1));
}

#[test]
fn zeros_are_dropped_from_rank_sums() {
    // One zero difference: it is counted as a zero, not in either rank sum,
    // and the remaining ranks exclude the zero's tie group.
    let x = vec![10, 12, 9, 14];
    let y = vec![10, 9, 12, 10];
    let test = WilcoxonWTest::paired(&x, &y).unwrap();
    let (minus, plus) = test.estimate();
    // |d| = [0, 3, 3, 4]; the zero takes rank 1, the two threes share
    // midrank 2.5 (one negative, one positive), the four takes rank 4.
    assert_eq!(minus, 5);
    assert_eq!(plus, 13);
}
